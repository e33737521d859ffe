use brood_core::heap::Heap;
use brood_core::value::{global_env, Handle, Value};
use brood_core::vm_cache::{CallIcEntry, CompiledArm, NativeCode};
use std::sync::Arc;

fn arm(uid: u64, nsites: u32, native: NativeCode) -> CompiledArm {
    CompiledArm {
        uid,
        site_pos: vec![],
        consts: vec![],
        argc: 2,
        nsites,
        ngsites: 0,
        native,
        compile_epoch: 0,
        nslots: 3,
        noptional: 0,
        has_rest: false,
        ncaptures: 0,
        active_nslots: 5,
    }
}

fn install(h: &mut Heap, callee: CompiledArm) {
    let caller = arm(1, 1, NativeCode::Absent);
    let bases = h.vm_arm_block(&caller);
    h.set_ic_bases(bases);
    h.vm_call_ic_put(
        0,
        CallIcEntry {
            sym: 5,
            argc: 2,
            epoch: 0,
            callee: Value::Fn(Handle::runtime_gen(0, 0)),
            arm: Some((Arc::new(callee), global_env())),
            callee_bases: (0, 0),
        },
    );
}

#[test]
fn a_native_arm_links_and_the_link_is_memoised() {
    let mut h = Heap::new(1);
    install(&mut h, arm(2, 0, NativeCode::Installed(0x1000)));
    let link = h.vm_call_ic_fast_link(0, 5, 2, 0);
    assert_eq!(link, Some((0x1000, 5, global_env(), (0, 0))));
    assert_eq!(h.vm_fast_links[0].code, 0x1000, "the validated link is published");
    assert_eq!(h.vm_call_ic_fast_link(0, 5, 2, 0), link);
    assert_eq!(h.vm_call_ic_fast_link(0, 5, 3, 0), None, "another argument count misses");
    assert_eq!(h.vm_call_ic_fast_link(0, 5, 2, 1), None, "another epoch misses");
}

#[test]
fn an_arm_without_installed_code_or_with_a_rich_frame_does_not_link() {
    for callee in [
        arm(2, 0, NativeCode::Absent),
        arm(2, 0, NativeCode::Queued),
        arm(2, 0, NativeCode::Bailed),
        CompiledArm { has_rest: true, ..arm(2, 0, NativeCode::Installed(7)) },
        CompiledArm { noptional: 1, ..arm(2, 0, NativeCode::Installed(7)) },
        CompiledArm { ncaptures: 1, ..arm(2, 0, NativeCode::Installed(7)) },
        CompiledArm { compile_epoch: 9, ..arm(2, 0, NativeCode::Installed(7)) },
    ] {
        let mut h = Heap::new(1);
        install(&mut h, callee);
        assert_eq!(h.vm_call_ic_fast_link(0, 5, 2, 0), None);
        assert_eq!(h.vm_fast_links[0].code, 0, "nothing is published");
    }
}

#[test]
fn a_builtin_publishes_with_the_native_marker() {
    let mut h = Heap::new(1);
    install(&mut h, arm(2, 0, NativeCode::Absent));
    h.vm_fast_link_publish_native(0, 5, 2, 0, 0xBEEF);
    assert_eq!(h.vm_fast_links[0].nslots, u32::MAX);
    assert_eq!(h.vm_call_ic_fast_link(0, 5, 2, 0), Some((0xBEEF, u32::MAX as usize, Handle(0), (0, 0))));
    h.invalidate_fast_links_for(5);
    assert_eq!(h.vm_fast_links[0].code, 0);
}
