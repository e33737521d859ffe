//! Checking an evacuated RUNTIME region: every RUNTIME handle it holds must
//! point inside the region.

use vstd::prelude::*;
use crate::value::{Value, EnvId, RUNTIME};
use crate::runtime_code::{CodeSlabs, CodeEnv, CodeClosure};
use crate::reach::is_global_env;

verus! {

/// Does `v`, when it is a RUNTIME handle into one of the region's slabs, point
/// inside that slab?
pub open spec fn value_in_bounds(s: CodeSlabs, v: Value) -> bool {
    match v {
        Value::Pair(id) => id.spec_region() == RUNTIME ==> id.spec_index() < s.pairs@.len(),
        Value::Vector(id) => id.spec_region() == RUNTIME ==> id.spec_index() < s.vectors@.len(),
        Value::Mapping(id) => id.spec_region() == RUNTIME ==> id.spec_index() < s.maps@.len(),
        Value::Fn(id) => id.spec_region() == RUNTIME ==> id.spec_index() < s.closures@.len(),
        Value::Macro(id) => id.spec_region() == RUNTIME ==> id.spec_index() < s.closures@.len(),
        _ => true,
    }
}

/// Does the frame handle `e` point inside the region (or outside RUNTIME)?
pub open spec fn env_in_bounds(s: CodeSlabs, e: EnvId) -> bool {
    is_global_env(e) || e.spec_region() != RUNTIME || e.spec_index() < s.envs@.len()
}

/// Every RUNTIME handle the region holds points inside it.
pub open spec fn slabs_closed(s: CodeSlabs) -> bool {
    &&& forall|i: int| 0 <= i < s.pairs@.len() ==> value_in_bounds(s, (#[trigger] s.pairs@[i]).0)
        && value_in_bounds(s, s.pairs@[i].1)
    &&& forall|i: int, j: int|
        0 <= i < s.vectors@.len() && 0 <= j < s.vectors@[i]@.len() ==> value_in_bounds(s, #[trigger] s.vectors@[i]@[j])
    &&& forall|i: int, j: int|
        0 <= i < s.maps@.len() && 0 <= j < s.maps@[i]@.len() ==> value_in_bounds(s, #[trigger] s.maps@[i]@[j])
    &&& forall|i: int, j: int|
        0 <= i < s.closures@.len() && 0 <= j < s.closures@[i].refs@.len() ==> value_in_bounds(
            s,
            #[trigger] s.closures@[i].refs@[j],
        )
    &&& forall|i: int| 0 <= i < s.closures@.len() ==> ((#[trigger] s.closures@[i]).env matches Some(e)
        ==> env_in_bounds(s, e))
    &&& forall|i: int, j: int|
        0 <= i < s.envs@.len() && 0 <= j < s.envs@[i].vars@.len() ==> value_in_bounds(
            s,
            (#[trigger] s.envs@[i].vars@[j]).1,
        )
    &&& forall|i: int| 0 <= i < s.envs@.len() ==> ((#[trigger] s.envs@[i]).parent matches Some(e)
        ==> env_in_bounds(s, e))
}

/// Does `v` point inside the region?
fn value_ok(s: &CodeSlabs, v: Value) -> (r: bool)
    ensures
        r == value_in_bounds(*s, v),
{
    match v {
        Value::Pair(id) => id.region() != RUNTIME || id.index() < s.pairs.len(),
        Value::Vector(id) => id.region() != RUNTIME || id.index() < s.vectors.len(),
        Value::Mapping(id) => id.region() != RUNTIME || id.index() < s.maps.len(),
        Value::Fn(id) => id.region() != RUNTIME || id.index() < s.closures.len(),
        Value::Macro(id) => id.region() != RUNTIME || id.index() < s.closures.len(),
        _ => true,
    }
}

/// Does the frame handle `e` point inside the region?
fn env_ok(s: &CodeSlabs, e: EnvId) -> (r: bool)
    ensures
        r == env_in_bounds(*s, e),
{
    e.0 == 0xFFFF_FFFF_FFFF_FFFFu64 || e.region() != RUNTIME || e.index() < s.envs.len()
}

/// Do all of `xs` point inside the region?
fn all_ok(s: &CodeSlabs, xs: &Vec<Value>) -> (r: bool)
    ensures
        r == forall|j: int| 0 <= j < xs@.len() ==> value_in_bounds(*s, #[trigger] xs@[j]),
{
    let mut j: usize = 0;
    while j < xs.len()
        invariant
            j <= xs@.len(),
            forall|k: int| 0 <= k < j ==> value_in_bounds(*s, #[trigger] xs@[k]),
        decreases xs@.len() - j,
    {
        if !value_ok(s, xs[j]) {
            return false;
        }
        j = j + 1;
    }
    true
}

/// Do all bound values point inside the region?
fn all_vars_ok(s: &CodeSlabs, xs: &Vec<(u32, Value)>) -> (r: bool)
    ensures
        r == forall|j: int| 0 <= j < xs@.len() ==> value_in_bounds(*s, (#[trigger] xs@[j]).1),
{
    let mut j: usize = 0;
    while j < xs.len()
        invariant
            j <= xs@.len(),
            forall|k: int| 0 <= k < j ==> value_in_bounds(*s, (#[trigger] xs@[k]).1),
        decreases xs@.len() - j,
    {
        if !value_ok(s, xs[j].1) {
            return false;
        }
        j = j + 1;
    }
    true
}

/// Verify an evacuated region: every RUNTIME handle it contains points inside
/// it. A handle still pointing past a slab's end means an evacuation missed a
/// rewrite.
pub fn verify_rt_slabs(s: &CodeSlabs) -> (r: bool)
    ensures
        r == slabs_closed(*s),
{
    let mut i: usize = 0;
    while i < s.pairs.len()
        invariant
            i <= s.pairs@.len(),
            forall|k: int| 0 <= k < i ==> value_in_bounds(*s, (#[trigger] s.pairs@[k]).0)
                && value_in_bounds(*s, s.pairs@[k].1),
        decreases s.pairs@.len() - i,
    {
        let (h, t) = s.pairs[i];
        if !value_ok(s, h) || !value_ok(s, t) {
            return false;
        }
        i = i + 1;
    }
    let mut i: usize = 0;
    while i < s.vectors.len()
        invariant
            i <= s.vectors@.len(),
            forall|k: int, j: int|
                0 <= k < i && 0 <= j < s.vectors@[k]@.len() ==> value_in_bounds(*s, #[trigger] s.vectors@[k]@[j]),
        decreases s.vectors@.len() - i,
    {
        if !all_ok(s, &s.vectors[i]) {
            return false;
        }
        i = i + 1;
    }
    let mut i: usize = 0;
    while i < s.maps.len()
        invariant
            i <= s.maps@.len(),
            forall|k: int, j: int|
                0 <= k < i && 0 <= j < s.maps@[k]@.len() ==> value_in_bounds(*s, #[trigger] s.maps@[k]@[j]),
        decreases s.maps@.len() - i,
    {
        if !all_ok(s, &s.maps[i]) {
            return false;
        }
        i = i + 1;
    }
    let mut i: usize = 0;
    while i < s.closures.len()
        invariant
            i <= s.closures@.len(),
            forall|k: int, j: int|
                0 <= k < i && 0 <= j < s.closures@[k].refs@.len() ==> value_in_bounds(
                    *s,
                    #[trigger] s.closures@[k].refs@[j],
                ),
            forall|k: int| 0 <= k < i ==> ((#[trigger] s.closures@[k]).env matches Some(e)
                ==> env_in_bounds(*s, e)),
        decreases s.closures@.len() - i,
    {
        let cl = &s.closures[i];
        if !all_ok(s, &cl.refs) {
            return false;
        }
        match cl.env {
            Some(e) => {
                if !env_ok(s, e) {
                    return false;
                }
            },
            None => {},
        }
        i = i + 1;
    }
    let mut i: usize = 0;
    while i < s.envs.len()
        invariant
            i <= s.envs@.len(),
            forall|k: int, j: int|
                0 <= k < i && 0 <= j < s.envs@[k].vars@.len() ==> value_in_bounds(
                    *s,
                    (#[trigger] s.envs@[k].vars@[j]).1,
                ),
            forall|k: int| 0 <= k < i ==> ((#[trigger] s.envs@[k]).parent matches Some(e)
                ==> env_in_bounds(*s, e)),
        decreases s.envs@.len() - i,
    {
        let fr = &s.envs[i];
        if !all_vars_ok(s, &fr.vars) {
            return false;
        }
        match fr.parent {
            Some(e) => {
                if !env_ok(s, e) {
                    return false;
                }
            },
            None => {},
        }
        i = i + 1;
    }
    true
}

} // verus!
