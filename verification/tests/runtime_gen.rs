use brood_core::rt_collect::runtime_gen_of;
use brood_core::value::{Handle, Value};

#[test]
fn runtime_handles_report_their_generation_and_others_none() {
    assert_eq!(runtime_gen_of(Value::Pair(Handle::runtime_gen(3, 1))), Some(1));
    assert_eq!(runtime_gen_of(Value::Str(Handle::runtime_gen(0, 0))), Some(0));
    assert_eq!(runtime_gen_of(Value::Pair(Handle::local(3))), None);
    assert_eq!(runtime_gen_of(Value::Int(7)), None);
}
