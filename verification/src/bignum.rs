//! Arbitrary-precision integers as the heap holds them: a sign and base-2^32
//! digits, least significant first. A computed integer is stored as a bignum only
//! when it lies outside the `i64` range, so an `Int` and a `BigInt` never denote
//! the same number.

use vstd::prelude::*;
use crate::value::{Value, Handle, LOCAL};
use crate::heap::Heap;

verus! {

/// An integer as a sign and base-2^32 digits, least significant first.
pub struct BigDigits {
    pub negative: bool,
    pub limbs: Vec<u32>,
}

/// The magnitude that base-2^32 digits, least significant first, denote.
pub open spec fn limbs_value(s: Seq<u32>) -> nat
    decreases s.len(),
{
    if s.len() == 0 {
        0
    } else {
        s[0] as nat + 0x1_0000_0000 * limbs_value(s.drop_first())
    }
}

impl BigDigits {
    /// The integer denoted.
    pub open spec fn spec_value(&self) -> int {
        if self.negative {
            -(limbs_value(self.limbs@) as int)
        } else {
            limbs_value(self.limbs@) as int
        }
    }

    /// Canonical digits: no leading zero digit, and zero is not negative.
    pub open spec fn wf(&self) -> bool {
        &&& self.limbs@.len() > 0 ==> self.limbs@.last() != 0
        &&& self.limbs@.len() == 0 ==> !self.negative
    }

    /// The digits of an `i64`.
    pub fn from_i64(i: i64) -> (r: BigDigits)
        ensures
            r.wf(),
            r.spec_value() == i as int,
    {
        let negative = i < 0;
        let m: u64 = if i >= 0 {
            i as u64
        } else if i == i64::MIN {
            0x8000_0000_0000_0000u64
        } else {
            (-i) as u64
        };
        let lo: u32 = (m & 0xFFFF_FFFFu64) as u32;
        let hi: u32 = (m >> 32u64) as u32;
        proof {
            assert((m & 0xFFFF_FFFFu64) + (m >> 32u64) * 0x1_0000_0000u64 == m) by (bit_vector);
            assert((m >> 32u64) <= 0xFFFF_FFFFu64) by (bit_vector);
            assert((m & 0xFFFF_FFFFu64) <= 0xFFFF_FFFFu64) by (bit_vector);
        }
        proof {
            if i >= 0 {
                assert(m as int == i as int);
            } else {
                assert(m as int == -(i as int));
            }
            assert(lo as nat + 0x1_0000_0000 * (hi as nat) == m as nat);
        }
        let mut limbs: Vec<u32> = Vec::new();
        if hi != 0 {
            limbs.push(lo);
            limbs.push(hi);
            proof {
                let s1 = limbs@.drop_first();
                assert(s1 =~= seq![hi]);
                assert(s1.drop_first() =~= Seq::<u32>::empty());
                assert(limbs_value(s1.drop_first()) == 0);
                assert(limbs_value(s1) == hi as nat);
                assert(limbs_value(limbs@) == lo as nat + 0x1_0000_0000 * limbs_value(s1));
            }
        } else if lo != 0 {
            limbs.push(lo);
            proof {
                assert(limbs@.drop_first() =~= Seq::<u32>::empty());
                assert(limbs_value(limbs@.drop_first()) == 0);
                assert(limbs_value(limbs@) == lo as nat);
            }
        } else {
            proof {
                assert(m == 0);
                assert(limbs_value(limbs@) == 0);
            }
        }
        BigDigits { negative, limbs }
    }

    /// A copy of the digits.
    pub fn copy(&self) -> (r: BigDigits)
        ensures
            r.negative == self.negative,
            r.limbs@ == self.limbs@,
    {
        let mut limbs: Vec<u32> = Vec::new();
        let mut i: usize = 0;
        while i < self.limbs.len()
            invariant
                i <= self.limbs@.len(),
                limbs@ == self.limbs@.take(i as int),
            decreases self.limbs@.len() - i,
        {
            proof {
                assert(self.limbs@.take(i + 1) == self.limbs@.take(i as int).push(self.limbs@[i as int]));
            }
            limbs.push(self.limbs[i]);
            i = i + 1;
        }
        proof {
            assert(self.limbs@.take(self.limbs@.len() as int) == self.limbs@);
        }
        BigDigits { negative: self.negative, limbs }
    }
}

/// A stored bignum: canonical, and outside the `i64` range.
pub open spec fn big_normal(n: BigDigits) -> bool {
    n.wf() && !(i64::MIN <= n.spec_value() <= i64::MAX)
}

/// `num_bigint::BigInt::to_i64` on the integer the digits denote (built by
/// `BigInt::from_slice`): the integer when it fits an `i64`, otherwise `None`.
#[verifier::external_body]
fn digits_to_i64(n: &BigDigits) -> (r: Option<i64>)
    ensures
        i64::MIN <= n.spec_value() <= i64::MAX ==> r == Some(n.spec_value() as i64),
        !(i64::MIN <= n.spec_value() <= i64::MAX) ==> r is None,
{
    let sign = if n.negative { num_bigint::Sign::Minus } else { num_bigint::Sign::Plus };
    num_traits::ToPrimitive::to_i64(&num_bigint::BigInt::from_slice(sign, &n.limbs))
}

impl Heap {
    /// The integer an integer value denotes: an `Int` itself, a LOCAL `BigInt`
    /// the bignum it addresses; 0 for anything else.
    pub open spec fn spec_bigint_of(&self, v: Value) -> int {
        match v {
            Value::Int(i) => i as int,
            Value::BigInt(h) => if h.spec_region() == LOCAL && h.spec_index() < self.bigints@.len() {
                self.bigints@[h.spec_index() as int].spec_value()
            } else {
                0
            },
            _ => 0,
        }
    }

    /// Is `v` an integer whose value this heap can read: an `Int`, or a `BigInt`
    /// addressing one of its LOCAL bignums?
    pub open spec fn spec_is_readable_integer(&self, v: Value) -> bool {
        match v {
            Value::Int(_) => true,
            Value::BigInt(h) => h.spec_region() == LOCAL && h.spec_index() < self.bigints@.len(),
            _ => false,
        }
    }

    /// Stores `n`, which lies outside the `i64` range, as a LOCAL bignum.
    pub fn alloc_bigint(&mut self, n: BigDigits) -> (r: Value)
        requires
            old(self).wf(),
            big_normal(n),
            old(self).bigints@.len() < 0x1_0000_0000,
        ensures
            final(self).wf(),
            r == Value::BigInt(Handle(crate::value::spec_local_gen(old(self).bigints@.len(), 0))),
            final(self).bigints@ == old(self).bigints@.push(n),
            *final(self) == (Heap { bigints: final(self).bigints, ..*old(self) }),
            final(self).spec_bigint_of(r) == n.spec_value(),
    {
        let idx = self.bigints.len();
        self.bigints.push(n);
        Value::BigInt(Handle::local(idx))
    }

    /// The value of a computed integer `n`, normalized: an `Int` when it fits an
    /// `i64`, a fresh LOCAL bignum otherwise.
    pub fn int_from_bigint(&mut self, n: BigDigits) -> (r: Value)
        requires
            old(self).wf(),
            n.wf(),
            old(self).bigints@.len() < 0x1_0000_0000,
        ensures
            final(self).wf(),
            i64::MIN <= n.spec_value() <= i64::MAX ==> r == Value::Int(n.spec_value() as i64)
                && *final(self) == *old(self),
            !(i64::MIN <= n.spec_value() <= i64::MAX) ==> {
                &&& r is BigInt
                &&& final(self).spec_bigint_of(r) == n.spec_value()
                &&& final(self).bigints@ == old(self).bigints@.push(n)
                &&& *final(self) == (Heap { bigints: final(self).bigints, ..*old(self) })
            },
    {
        match digits_to_i64(&n) {
            Some(i) => Value::Int(i),
            None => self.alloc_bigint(n),
        }
    }

    /// The LOCAL bignum a handle addresses; `None` for a handle into another
    /// region or past the slab.
    pub fn bigint(&self, id: Handle) -> (r: Option<&BigDigits>)
        ensures
            id.spec_region() == LOCAL && id.spec_index() < self.bigints@.len() ==> r == Some(
                &self.bigints@[id.spec_index() as int],
            ),
            !(id.spec_region() == LOCAL && id.spec_index() < self.bigints@.len()) ==> r is None,
    {
        if id.region() == LOCAL && id.index() < self.bigints.len() {
            Some(&self.bigints[id.index()])
        } else {
            None
        }
    }

    /// Any readable integer value as digits, an `Int` promoted; `None` for a
    /// value that is not one.
    pub fn as_bigint(&self, v: Value) -> (r: Option<BigDigits>)
        requires
            self.wf(),
        ensures
            self.spec_is_readable_integer(v) ==> r is Some && r->0.wf() && r->0.spec_value()
                == self.spec_bigint_of(v),
            !self.spec_is_readable_integer(v) ==> r is None,
    {
        match v {
            Value::Int(i) => Some(BigDigits::from_i64(i)),
            Value::BigInt(id) => match self.bigint(id) {
                Some(d) => {
                    let c = d.copy();
                    proof {
                        assert(big_normal(self.bigints@[id.spec_index() as int]));
                    }
                    Some(c)
                },
                None => None,
            },
            _ => None,
        }
    }

    /// A readable integer value as digits.
    pub fn bigint_of(&self, v: Value) -> (r: BigDigits)
        requires
            self.wf(),
            self.spec_is_readable_integer(v),
        ensures
            r.wf(),
            r.spec_value() == self.spec_bigint_of(v),
    {
        match self.as_bigint(v) {
            Some(d) => d,
            None => BigDigits { negative: false, limbs: Vec::new() },
        }
    }
}

} // verus!
