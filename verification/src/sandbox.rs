//! The plain-data part of running a WebAssembly node: the arguments handed
//! to its `add` export and the fuel it used.

use vstd::prelude::*;
use crate::outside::{json_field_i64, json_get_i64};

verus! {

/// An argument of `add`: the payload's integer at the key, truncated to
/// 32 bits, or zero when there is none.
pub open spec fn add_argument(field: Option<i64>) -> i32 {
    match field {
        Some(x) => x as i32,
        None => 0,
    }
}

/// The arguments `(a, b)` handed to a module's `add` export: the payload's
/// (JSON text) integers at `a` and `b`, truncated to 32 bits, zero when
/// missing.
pub fn add_arguments(payload: &str) -> (r: (i32, i32))
    ensures
        r.0 == add_argument(json_field_i64(payload@, "a"@)),
        r.1 == add_argument(json_field_i64(payload@, "b"@)),
{
    let a = match json_get_i64(payload, "a") {
        Some(x) => x as i32,
        None => 0,
    };
    let b = match json_get_i64(payload, "b") {
        Some(x) => x as i32,
        None => 0,
    };
    (a, b)
}

/// Fuel a run used: what it was given less what remains, floored at zero.
/// When the store cannot tell what remains, `if_unknown` stands for it: the
/// whole fuel after a call of `add`, none of it when the input is echoed.
pub fn fuel_used(fuel: u64, remaining: Option<u64>, if_unknown: u64) -> (r: u64)
    ensures
        ({
            let left = match remaining {
                Some(x) => x,
                None => if_unknown,
            };
            r == if fuel >= left { (fuel - left) as u64 } else { 0 }
        }),
{
    let left = match remaining {
        Some(x) => x,
        None => if_unknown,
    };
    fuel.saturating_sub(left)
}

} // verus!
