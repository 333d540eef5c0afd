//! `func` dialect: the function terminator. `return` carries operands but
//! binds no result.

use vstd::prelude::*;
use super::{Dispatch, Handler, LatencyCategory};
use crate::ir::Value;

verus! {

/// Register `return` and `func.return`.
pub fn register(d: &mut Dispatch)
    requires
        old(d).wf(),
    ensures
        final(d).wf(),
        final(d).handler_map() == old(d).handler_map().insert("return"@, Handler::FuncReturn).insert(
            "func.return"@,
            Handler::FuncReturn,
        ),
        final(d).latency_map() == old(d).latency_map().insert("return"@, LatencyCategory::Zero).insert(
            "func.return"@,
            LatencyCategory::Zero,
        ),
{
    d.register("return", LatencyCategory::Zero, Handler::FuncReturn);
    d.register("func.return", LatencyCategory::Zero, Handler::FuncReturn);
}

/// `return`: produces no value.
pub fn ret() -> (r: Result<Option<Value>, String>)
    ensures
        r == Ok::<Option<Value>, String>(None),
{
    Ok(None)
}

} // verus!
