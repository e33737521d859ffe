use brood_core::heap::Heap;
use brood_core::value::{Closure, ClosureArm, Passthrough, Value};

const F: u32 = 10;
const X: u32 = 11;
const Y: u32 = 12;
const IF: u32 = 13;

fn arm(h: &mut Heap, params: Vec<u32>, form: Vec<Value>) -> ClosureArm {
    let body = h.list(form);
    ClosureArm { params, optionals: Vec::new(), rest: None, body: vec![body], passthrough: None }
}

#[test]
fn a_forwarding_arm_maps_each_argument_to_its_parameter() {
    let mut h = Heap::new(1);
    let a = arm(&mut h, vec![X, Y], vec![Value::Sym(F), Value::Sym(Y), Value::Sym(X), Value::Sym(Y)]);
    let p = h.compute_passthrough(&a, &[IF]).expect("a pure forward");
    assert_eq!(p.head, Value::Sym(F));
    assert_eq!(p.map, vec![1, 0, 1]);
}

#[test]
fn a_call_with_no_arguments_forwards_nothing() {
    let mut h = Heap::new(1);
    let a = arm(&mut h, vec![], vec![Value::Sym(F)]);
    let p = h.compute_passthrough(&a, &[IF]).expect("a pure forward");
    assert!(p.map.is_empty());
}

#[test]
fn literals_special_forms_and_parameter_heads_are_not_forwards() {
    let mut h = Heap::new(1);
    let lit = arm(&mut h, vec![X], vec![Value::Sym(F), Value::Sym(X), Value::Int(1)]);
    assert!(h.compute_passthrough(&lit, &[IF]).is_none());
    let special = arm(&mut h, vec![X], vec![Value::Sym(IF), Value::Sym(X)]);
    assert!(h.compute_passthrough(&special, &[IF]).is_none());
    let own = arm(&mut h, vec![X], vec![Value::Sym(X), Value::Sym(X)]);
    assert!(h.compute_passthrough(&own, &[IF]).is_none());
    let free = arm(&mut h, vec![X], vec![Value::Sym(F), Value::Sym(Y)]);
    assert!(h.compute_passthrough(&free, &[IF]).is_none());
}

#[test]
fn rest_parameters_and_longer_bodies_are_not_forwards() {
    let mut h = Heap::new(1);
    let mut a = arm(&mut h, vec![X], vec![Value::Sym(F), Value::Sym(X)]);
    a.rest = Some(Y);
    assert!(h.compute_passthrough(&a, &[]).is_none());
    let mut b = arm(&mut h, vec![X], vec![Value::Sym(F), Value::Sym(X)]);
    b.body.push(Value::Nil);
    assert!(h.compute_passthrough(&b, &[]).is_none());
    let improper = h.alloc_pair(Value::Sym(X), Value::Int(3));
    let form = h.alloc_pair(Value::Sym(F), improper);
    let c = ClosureArm { params: vec![X], optionals: Vec::new(), rest: None, body: vec![form], passthrough: None };
    assert!(h.compute_passthrough(&c, &[]).is_none());
}

#[test]
fn attaching_fills_only_the_arms_without_an_analysis() {
    let mut h = Heap::new(1);
    let fresh = arm(&mut h, vec![X], vec![Value::Sym(F), Value::Sym(X)]);
    let mut kept = arm(&mut h, vec![X, Y], vec![Value::Sym(F), Value::Sym(X)]);
    kept.passthrough = Some(Passthrough { head: Value::Sym(IF), map: vec![1] });
    let mut c = Closure { name: Some(F), arms: vec![fresh, kept], doc: None, env: None };
    h.attach_passthroughs(&mut c, &[IF]);
    let p0 = c.arms[0].passthrough.as_ref().expect("filled");
    assert_eq!(p0.head, Value::Sym(F));
    assert_eq!(p0.map, vec![0]);
    let p1 = c.arms[1].passthrough.as_ref().expect("kept");
    assert_eq!(p1.head, Value::Sym(IF));
    assert_eq!(p1.map, vec![1]);
}
