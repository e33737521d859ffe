//! Thin-wrapper analysis: whether a closure arm only forwards its own parameters,
//! unchanged, to another function, and if so which parameter lands in which slot.

use vstd::prelude::*;
use crate::value::{Value, Symbol, Closure, ClosureArm, Passthrough};
use crate::heap::Heap;

verus! {

/// The position of the first occurrence of `s` in `params`.
pub open spec fn first_index(params: Seq<Symbol>, s: Symbol) -> Option<int> {
    if exists|i: int| 0 <= i < params.len() && params[i] == s && forall|j: int| 0 <= j < i ==> params[j] != s {
        Some(choose|i: int| 0 <= i < params.len() && params[i] == s && forall|j: int| 0 <= j < i ==> params[j] != s)
    } else {
        None
    }
}

/// The parameter slot a call argument forwards: the argument must be a bare
/// symbol naming one of the parameters.
pub open spec fn arg_param(params: Seq<Symbol>, arg: Value) -> Option<int> {
    match arg {
        Value::Sym(s) => first_index(params, s),
        _ => None,
    }
}

/// The items of the proper list `v`, walking at most `fuel` cells (the empty list
/// included); `None` for an improper list, a dangling cell or a longer walk.
pub open spec fn spec_list_items(heap: Heap, v: Value, fuel: nat) -> Option<Seq<Value>>
    decreases fuel,
{
    if fuel == 0 {
        None
    } else {
        match v {
            Value::Nil => Some(Seq::empty()),
            Value::Pair(h) => match heap.spec_pair(h) {
                Some(cell) => match spec_list_items(heap, cell.1, (fuel - 1) as nat) {
                    Some(rest) => Some(seq![cell.0].add(rest)),
                    None => None,
                },
                None => None,
            },
            _ => None,
        }
    }
}

impl Heap {
    /// One more than the number of cons cells this heap can reach: an acyclic list
    /// visits each cell at most once, so a walk this long ends at its terminator.
    pub open spec fn spec_pair_fuel(&self) -> nat {
        let n = self.local.pairs@.len() + self.runtime.gen0.pairs@.len()
            + self.runtime.gen1.pairs@.len() + 1;
        if n <= usize::MAX { n as nat } else { usize::MAX as nat }
    }

    /// The forwarding `(head, map)` of `arm`, when it is a pure pass-through: no
    /// optional or rest parameter, a single body form `(head a_1 … a_n)` whose head
    /// is a symbol that is neither a special form nor one of the arm's parameters,
    /// and whose every argument is one of the parameters, used directly; `map[k]` is
    /// the (first) position of the `k`-th argument among the parameters.
    pub open spec fn spec_passthrough(&self, arm: ClosureArm, special_forms: Seq<Symbol>) -> Option<(Value, Seq<usize>)> {
        if arm.optionals@.len() != 0 || arm.rest is Some || arm.body@.len() != 1 {
            None
        } else {
            match arm.body@[0] {
                Value::Pair(h) => match self.spec_pair(h) {
                    Some(cell) => match cell.0 {
                        Value::Sym(s) => if special_forms.contains(s) || arm.params@.contains(s) {
                            None
                        } else {
                            match spec_list_items(*self, cell.1, self.spec_pair_fuel()) {
                                Some(args) => if forall|j: int| 0 <= j < args.len()
                                    ==> (#[trigger] arg_param(arm.params@, args[j])) is Some {
                                    Some((cell.0, Seq::new(args.len(), |j: int| arg_param(arm.params@, args[j])->0 as usize)))
                                } else {
                                    None
                                },
                                None => None,
                            }
                        },
                        _ => None,
                    },
                    None => None,
                },
                _ => None,
            }
        }
    }

    fn pair_fuel(&self) -> (r: usize)
        ensures
            r as nat == self.spec_pair_fuel(),
    {
        let a = self.local.pairs.len();
        let b = self.runtime.gen0.pairs.len();
        let c = self.runtime.gen1.pairs.len();
        if a <= usize::MAX - b && a + b <= usize::MAX - c && a + b + c < usize::MAX {
            a + b + c + 1
        } else {
            usize::MAX
        }
    }

    /// Decides whether `arm` is a thin wrapper, `(fn [p …] (head p_i p_j …))`,
    /// whose calls can be redirected straight to `head` with the arguments
    /// permuted by the returned map. `special_forms` are the symbols the evaluator
    /// treats as special forms.
    pub fn compute_passthrough(&self, arm: &ClosureArm, special_forms: &[Symbol]) -> (r: Option<Passthrough>)
        ensures
            match self.spec_passthrough(*arm, special_forms@) {
                Some((head, map)) => r matches Some(p) && p.head == head && p.map@ == map,
                None => r is None,
            },
            arm.optionals@.len() != 0 || arm.rest is Some || arm.body@.len() != 1 ==> r is None,
    {
        if arm.optionals.len() != 0 || arm.rest.is_some() || arm.body.len() != 1 {
            return None;
        }
        let h = match arm.body[0] {
            Value::Pair(h) => h,
            _ => return None,
        };
        let (head, mut rest) = match self.pair(h) {
            Some(cell) => cell,
            None => return None,
        };
        let s = match head {
            Value::Sym(s) => s,
            _ => return None,
        };
        if contains_symbol(special_forms, s) || contains_symbol(arm.params.as_slice(), s) {
            return None;
        }
        let ghost params = arm.params@;
        let fuel = self.pair_fuel();
        let ghost rest0 = rest;
        let ghost mut seen: Seq<Value> = Seq::empty();
        let mut left: usize = fuel;
        let mut map: Vec<usize> = Vec::new();
        loop
            invariant
                params == arm.params@,
                left <= fuel,
                self.spec_passthrough(*arm, special_forms@) == (match spec_list_items(*self, rest0, fuel as nat) {
                    Some(args) => if forall|j: int| 0 <= j < args.len()
                        ==> (#[trigger] arg_param(params, args[j])) is Some {
                        Some((head, Seq::new(args.len(), |j: int| arg_param(params, args[j])->0 as usize)))
                    } else {
                        None
                    },
                    None => None,
                }),
                fuel as nat == self.spec_pair_fuel(),
                spec_list_items(*self, rest0, fuel as nat) == (match spec_list_items(*self, rest, left as nat) {
                    Some(r) => Some(seen.add(r)),
                    None => None::<Seq<Value>>,
                }),
                forall|j: int| 0 <= j < seen.len() ==> (#[trigger] arg_param(params, seen[j])) is Some,
                map@ == Seq::new(seen.len(), |j: int| arg_param(params, seen[j])->0 as usize),
            decreases left,
        {
            if left == 0 {
                proof {
                    assert(spec_list_items(*self, rest, left as nat) is None);
                }
                return None;
            }
            match rest {
                Value::Nil => {
                    proof {
                        assert(spec_list_items(*self, rest, left as nat) == Some(Seq::<Value>::empty()));
                        assert(seen.add(Seq::<Value>::empty()) =~= seen);
                    }
                    return Some(Passthrough { head, map });
                },
                Value::Pair(p) => {
                    let (a, next) = match self.pair(p) {
                        Some(cell) => cell,
                        None => {
                            proof {
                                assert(spec_list_items(*self, rest, left as nat) is None);
                            }
                            return None;
                        },
                    };
                    let i = match param_position(arm.params.as_slice(), a) {
                        Some(i) => i,
                        None => {
                            proof {
                                match spec_list_items(*self, next, (left - 1) as nat) {
                                    Some(r) => {
                                        let all = seen.add(seq![a].add(r));
                                        assert(all[seen.len() as int] == a);
                                        assert(arg_param(params, all[seen.len() as int]) is None);
                                    },
                                    None => {},
                                }
                            }
                            return None;
                        },
                    };
                    proof {
                        let ns = seen.push(a);
                        match spec_list_items(*self, next, (left - 1) as nat) {
                            Some(r) => {
                                assert(seen.add(seq![a].add(r)) =~= ns.add(r));
                            },
                            None => {},
                        }
                        assert forall|j: int| 0 <= j < ns.len() implies (#[trigger] arg_param(params, ns[j])) is Some by {
                            if j < seen.len() {
                                assert(ns[j] == seen[j]);
                            }
                        }
                        seen = ns;
                    }
                    map.push(i);
                    proof {
                        assert(map@ =~= Seq::new(seen.len(), |j: int| arg_param(params, seen[j])->0 as usize));
                    }
                    rest = next;
                    left = left - 1;
                },
                _ => {
                    proof {
                        assert(spec_list_items(*self, rest, left as nat) is None);
                    }
                    return None;
                },
            }
        }
    }
}

impl Heap {
    /// Fills in the thin-wrapper analysis of every arm of `c` that does not carry
    /// one yet, as a closure is built; arms that already carry one keep it, and
    /// nothing else about the closure changes.
    pub fn attach_passthroughs(&self, c: &mut Closure, special_forms: &[Symbol])
        ensures
            final(c).name == old(c).name,
            final(c).doc == old(c).doc,
            final(c).env == old(c).env,
            final(c).arms@.len() == old(c).arms@.len(),
            forall|i: int| 0 <= i < old(c).arms@.len() ==> {
                let a = old(c).arms@[i];
                let b = #[trigger] final(c).arms@[i];
                &&& b.params == a.params
                &&& b.optionals == a.optionals
                &&& b.rest == a.rest
                &&& b.body == a.body
                &&& if a.passthrough is Some {
                    b.passthrough == a.passthrough
                } else {
                    match self.spec_passthrough(a, special_forms@) {
                        Some((head, map)) => b.passthrough matches Some(p) && p.head == head && p.map@ == map,
                        None => b.passthrough is None,
                    }
                }
            },
    {
        let mut arms: Vec<ClosureArm> = Vec::new();
        core::mem::swap(&mut arms, &mut c.arms);
        let ghost orig = arms@;
        let n = arms.len();
        let mut i: usize = 0;
        while i < n
            invariant
                n == arms@.len(),
                orig == old(c).arms@,
                i <= n,
                c.name == old(c).name,
                c.doc == old(c).doc,
                c.env == old(c).env,
                forall|k: int| i <= k < n ==> #[trigger] arms@[k] == orig[k],
                forall|k: int| 0 <= k < i ==> {
                    let a = orig[k];
                    let b = #[trigger] arms@[k];
                    &&& b.params == a.params
                    &&& b.optionals == a.optionals
                    &&& b.rest == a.rest
                    &&& b.body == a.body
                    &&& if a.passthrough is Some {
                        b.passthrough == a.passthrough
                    } else {
                        match self.spec_passthrough(a, special_forms@) {
                            Some((head, map)) => b.passthrough matches Some(p) && p.head == head && p.map@ == map,
                            None => b.passthrough is None,
                        }
                    }
                },
            decreases n - i,
        {
            if arms[i].passthrough.is_none() {
                let p = self.compute_passthrough(&arms[i], special_forms);
                arms[i].passthrough = p;
            }
            i = i + 1;
        }
        core::mem::swap(&mut arms, &mut c.arms);
    }
}

/// What a pass-through is: only an arm with no optional or rest parameter and a
/// single body form `(head a_1 … a_n)` has one; its head is a symbol that is
/// neither a special form nor a parameter; and for each argument position `k`,
/// the body passes exactly the parameter `map[k]` names, as a bare symbol.
pub proof fn law_passthrough_shape(h: Heap, arm: ClosureArm, special_forms: Seq<Symbol>)
    requires
        arm.wf(),
    ensures
        arm.optionals@.len() != 0 || arm.rest is Some || arm.body@.len() != 1 ==> h.spec_passthrough(
            arm,
            special_forms,
        ) is None,
        h.spec_passthrough(arm, special_forms) matches Some((head, map)) ==> {
            &&& arm.optionals@.len() == 0
            &&& arm.rest is None
            &&& arm.body@.len() == 1
            &&& arm.body@[0] is Pair
            &&& h.spec_pair(arm.body@[0]->Pair_0) matches Some(cell) && {
                &&& cell.0 == head
                &&& head matches Value::Sym(s) && !special_forms.contains(s) && !arm.params@.contains(s)
                &&& spec_list_items(h, cell.1, h.spec_pair_fuel()) matches Some(args) && {
                    &&& args.len() == map.len()
                    &&& forall|k: int| 0 <= k < map.len() ==> (map[k] as int) < arm.params@.len()
                        && #[trigger] args[k] == Value::Sym(arm.params@[map[k] as int])
                }
            }
        },
{
    match h.spec_passthrough(arm, special_forms) {
        Some((head, map)) => {
            let cell = h.spec_pair(arm.body@[0]->Pair_0)->0;
            let args = spec_list_items(h, cell.1, h.spec_pair_fuel())->0;
            let params = arm.params@;
            assert forall|k: int| 0 <= k < map.len() implies (map[k] as int) < params.len()
                && #[trigger] args[k] == Value::Sym(params[map[k] as int]) by {
                assert(arg_param(params, args[k]) is Some);
                let s = args[k]->Sym_0;
                let i = first_index(params, s)->0;
                assert(0 <= i < params.len() && params[i] == s);
                assert(map[k] == i as usize);
            }
        },
        None => {},
    }
}

/// Whether `s` occurs in `xs`.
fn contains_symbol(xs: &[Symbol], s: Symbol) -> (r: bool)
    ensures
        r == xs@.contains(s),
{
    let mut i: usize = 0;
    while i < xs.len()
        invariant
            i <= xs@.len(),
            forall|j: int| 0 <= j < i ==> xs@[j] != s,
        decreases xs@.len() - i,
    {
        if xs[i] == s {
            return true;
        }
        i = i + 1;
    }
    false
}

/// The parameter slot `arg` forwards, if it is a symbol among `params`.
fn param_position(params: &[Symbol], arg: Value) -> (r: Option<usize>)
    ensures
        match arg_param(params@, arg) {
            Some(i) => r == Some(i as usize),
            None => r is None,
        },
{
    match arg {
        Value::Sym(s) => symbol_position(params, s),
        _ => None,
    }
}

/// The first position of `s` in `params`.
fn symbol_position(params: &[Symbol], s: Symbol) -> (r: Option<usize>)
    ensures
        match first_index(params@, s) {
            Some(i) => r == Some(i as usize),
            None => r is None,
        },
{
    let mut i: usize = 0;
    while i < params.len()
        invariant
            i <= params@.len(),
            forall|j: int| 0 <= j < i ==> params@[j] != s,
        decreases params@.len() - i,
    {
        if params[i] == s {
            proof {
                let p = params@;
                let k = i as int;
                assert(0 <= k < p.len() && p[k] == s && forall|j: int| 0 <= j < k ==> p[j] != s);
                let c = choose|c: int| 0 <= c < p.len() && p[c] == s && forall|j: int| 0 <= j < c ==> p[j] != s;
                assert(!(c < k));
                assert(!(c > k));
            }
            return Some(i);
        }
        i = i + 1;
    }
    None
}

} // verus!
