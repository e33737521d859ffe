//! Allocating cons cells and vectors in a process's LOCAL slabs, and reading a
//! cell back from whichever region its handle addresses.

use vstd::prelude::*;
use crate::value::{Value, Handle, LOCAL, RUNTIME};
use crate::heap::Heap;
use crate::runtime_code::CodeSlabs;

verus! {

impl Heap {
    /// A fresh LOCAL cons cell `(car . cdr)`.
    pub fn alloc_pair(&mut self, car: Value, cdr: Value) -> (r: Value)
        requires
            old(self).local.pairs@.len() < 0x1_0000_0000,
        ensures
            r == Value::Pair(Handle(crate::value::spec_local_gen(old(self).local.pairs@.len(), 0))),
            r matches Value::Pair(h) && h.spec_region() == LOCAL && h.spec_index()
                == old(self).local.pairs@.len(),
            final(self).local.pairs@ == old(self).local.pairs@.push((car, cdr)),
            *final(self) == (Heap {
                local: CodeSlabs { pairs: final(self).local.pairs, ..old(self).local },
                ..*old(self)
            }),
    {
        let idx = self.local.pairs.len();
        self.local.pairs.push((car, cdr));
        Value::Pair(Handle::local(idx))
    }

    /// A fresh LOCAL vector holding `items`.
    pub fn alloc_vector(&mut self, items: Vec<Value>) -> (r: Value)
        requires
            old(self).local.vectors@.len() < 0x1_0000_0000,
        ensures
            r matches Value::Vector(h) && h.spec_region() == LOCAL && h.spec_index()
                == old(self).local.vectors@.len(),
            final(self).local.vectors@ == old(self).local.vectors@.push(items),
            *final(self) == (Heap {
                local: CodeSlabs { vectors: final(self).local.vectors, ..old(self).local },
                ..*old(self)
            }),
    {
        let idx = self.local.vectors.len();
        self.local.vectors.push(items);
        Value::Vector(Handle::local(idx))
    }

    /// The cell a pair handle names, when it names one of this process's LOCAL
    /// cells or one of the runtime's.
    pub open spec fn spec_pair(&self, id: Handle) -> Option<(Value, Value)> {
        let i = id.spec_index() as int;
        if id.spec_region() == LOCAL {
            if i < self.local.pairs@.len() {
                Some(self.local.pairs@[i])
            } else {
                None
            }
        } else if id.spec_region() == RUNTIME && id.spec_stamp() < 2 {
            let slabs = self.runtime.spec_gen(id.spec_stamp() as int);
            if i < slabs.pairs@.len() {
                Some(slabs.pairs@[i])
            } else {
                None
            }
        } else {
            None
        }
    }

    /// The `(car, cdr)` of the cell a pair handle names.
    pub fn pair(&self, id: Handle) -> (r: Option<(Value, Value)>)
        ensures
            r == self.spec_pair(id),
    {
        let i = id.index();
        let region = id.region();
        if region == LOCAL {
            if i < self.local.pairs.len() {
                Some(self.local.pairs[i])
            } else {
                None
            }
        } else if region == RUNTIME {
            let g = id.code_gen();
            if g < 2 {
                let slabs = if g == 0 {
                    &self.runtime.gen0
                } else {
                    &self.runtime.gen1
                };
                if i < slabs.pairs.len() {
                    Some(slabs.pairs[i])
                } else {
                    None
                }
            } else {
                None
            }
        } else {
            None
        }
    }
}


/// The cells building the list of `items` ending in `tail` appends from slab
/// index `base`: the last item's cell first, each later cell holding the one
/// before it as its tail.
pub open spec fn list_cells(items: Seq<Value>, tail: Value, base: nat) -> Seq<(Value, Value)> {
    Seq::new(
        items.len(),
        |i: int|
            (
                items[items.len() - 1 - i],
                if i == 0 {
                    tail
                } else {
                    Value::Pair(Handle(crate::value::spec_local_gen((base + i - 1) as nat, 0)))
                },
            ),
    )
}

/// The head of that list: `tail` for no items, otherwise the last cell built.
pub open spec fn list_head(items: Seq<Value>, tail: Value, base: nat) -> Value {
    if items.len() == 0 {
        tail
    } else {
        Value::Pair(Handle(crate::value::spec_local_gen((base + items.len() - 1) as nat, 0)))
    }
}

impl Heap {
    /// The list of `items` ending in `tail`: a proper list for a nil tail, an
    /// improper (dotted) one otherwise.
    pub fn list_with_tail(&mut self, items: Vec<Value>, tail: Value) -> (r: Value)
        requires
            old(self).local.pairs@.len() + items@.len() < 0x1_0000_0000,
        ensures
            r == list_head(items@, tail, old(self).local.pairs@.len()),
            final(self).local.pairs@ == old(self).local.pairs@ + list_cells(
                items@,
                tail,
                old(self).local.pairs@.len(),
            ),
            *final(self) == (Heap {
                local: CodeSlabs { pairs: final(self).local.pairs, ..old(self).local },
                ..*old(self)
            }),
    {
        self.list_from_slice_with_tail(items.as_slice(), tail)
    }

    /// The proper list of `items`.
    pub fn list(&mut self, items: Vec<Value>) -> (r: Value)
        requires
            old(self).local.pairs@.len() + items@.len() < 0x1_0000_0000,
        ensures
            r == list_head(items@, Value::Nil, old(self).local.pairs@.len()),
            final(self).local.pairs@ == old(self).local.pairs@ + list_cells(
                items@,
                Value::Nil,
                old(self).local.pairs@.len(),
            ),
            *final(self) == (Heap {
                local: CodeSlabs { pairs: final(self).local.pairs, ..old(self).local },
                ..*old(self)
            }),
    {
        self.list_with_tail(items, Value::Nil)
    }

    /// The proper list of the items of a slice, built without an intermediate vector.
    pub fn list_from_slice(&mut self, items: &[Value]) -> (r: Value)
        requires
            old(self).local.pairs@.len() + items@.len() < 0x1_0000_0000,
        ensures
            r == list_head(items@, Value::Nil, old(self).local.pairs@.len()),
            final(self).local.pairs@ == old(self).local.pairs@ + list_cells(
                items@,
                Value::Nil,
                old(self).local.pairs@.len(),
            ),
            *final(self) == (Heap {
                local: CodeSlabs { pairs: final(self).local.pairs, ..old(self).local },
                ..*old(self)
            }),
    {
        self.list_from_slice_with_tail(items, Value::Nil)
    }

    fn list_from_slice_with_tail(&mut self, items: &[Value], tail: Value) -> (r: Value)
        requires
            old(self).local.pairs@.len() + items@.len() < 0x1_0000_0000,
        ensures
            r == list_head(items@, tail, old(self).local.pairs@.len()),
            final(self).local.pairs@ == old(self).local.pairs@ + list_cells(
                items@,
                tail,
                old(self).local.pairs@.len(),
            ),
            *final(self) == (Heap {
                local: CodeSlabs { pairs: final(self).local.pairs, ..old(self).local },
                ..*old(self)
            }),
    {
        let ghost base = old(self).local.pairs@.len();
        let n = items.len();
        let mut acc = tail;
        let mut k: usize = 0;
        while k < n
            invariant
                n == items@.len(),
                k <= n,
                base == old(self).local.pairs@.len(),
                base + n < 0x1_0000_0000,
                self.local.pairs@ == old(self).local.pairs@ + list_cells(items@.skip((n - k) as int), tail, base),
                acc == list_head(items@.skip((n - k) as int), tail, base),
                *self == (Heap {
                    local: CodeSlabs { pairs: self.local.pairs, ..old(self).local },
                    ..*old(self)
                }),
            decreases n - k,
        {
            let item = items[n - 1 - k];
            let ghost before = self.local.pairs@;
            acc = self.alloc_pair(item, acc);
            proof {
                let s0 = items@.skip((n - k) as int);
                let s1 = items@.skip((n - k - 1) as int);
                assert(s1.len() == k + 1);
                assert forall|i: int| 0 <= i < s0.len() implies #[trigger] s0[i] == s1[i + 1] by {}
                assert(s1[0] == item);
                assert(list_cells(s1, tail, base) =~= list_cells(s0, tail, base).push((item, list_head(s0, tail, base))));
                assert(self.local.pairs@ =~= old(self).local.pairs@ + list_cells(s1, tail, base));
            }
            k = k + 1;
        }
        proof {
            assert(items@.skip(0) =~= items@);
        }
        acc
    }
}
} // verus!
