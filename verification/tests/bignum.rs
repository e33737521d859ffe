use brood_core::bignum::BigDigits;
use brood_core::heap::Heap;
use brood_core::value::Value;
use num_bigint::{BigInt, Sign};

fn digits(n: &BigInt) -> BigDigits {
    let (sign, limbs) = n.to_u32_digits();
    BigDigits { negative: sign == Sign::Minus, limbs }
}

fn back(d: &BigDigits) -> BigInt {
    BigInt::from_slice(if d.negative { Sign::Minus } else { Sign::Plus }, &d.limbs)
}

#[test]
fn an_in_range_result_demotes_to_an_int() {
    let mut h = Heap::new(1);
    let max = BigInt::from(i64::MAX);
    assert_eq!(h.int_from_bigint(digits(&max)), Value::Int(i64::MAX));
    let min = BigInt::from(i64::MIN);
    assert_eq!(h.int_from_bigint(digits(&min)), Value::Int(i64::MIN));
    assert_eq!(h.int_from_bigint(digits(&BigInt::from(0))), Value::Int(0));
    assert_eq!(h.int_from_bigint(digits(&BigInt::from(-5))), Value::Int(-5));
    assert!(h.bigints.is_empty(), "no bignum is stored for an i64-range value");
}

#[test]
fn an_out_of_range_result_is_stored_and_reads_back() {
    let mut h = Heap::new(1);
    let big = BigInt::from(i64::MAX) + 1;
    let v = h.int_from_bigint(digits(&big));
    assert!(matches!(v, Value::BigInt(_)));
    assert_eq!(back(&h.bigint_of(v)), big);
    let low = BigInt::from(i64::MIN) - 1;
    let w = h.int_from_bigint(digits(&low));
    assert!(matches!(w, Value::BigInt(_)));
    assert_eq!(back(&h.as_bigint(w).unwrap()), low);
    assert_eq!(h.bigints.len(), 2);
}

#[test]
fn an_int_promotes_to_its_digits() {
    let h = Heap::new(1);
    for i in [0i64, 1, -1, 4_294_967_296, i64::MAX, i64::MIN] {
        let d = h.as_bigint(Value::Int(i)).unwrap();
        assert_eq!(back(&d), BigInt::from(i));
        assert_eq!(d.limbs, digits(&BigInt::from(i)).limbs);
    }
    assert!(h.as_bigint(Value::Nil).is_none());
}
