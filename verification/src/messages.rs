//! The request and response shapes a service layer exchanges with callers
//! when canceling an order.

use vstd::prelude::*;

verus! {

broadcast use vstd::string::group_string_axioms;

/// A request to cancel the resting order that carries `order_id`.
#[derive(Clone, Copy, Debug, PartialEq, Eq, Structural)]
pub struct CancelRequest {
    pub order_id: u64,
}

/// The reported outcome of a cancel request: `status` is `"ok"` when the
/// order was found and removed, `"not_found"` otherwise.
pub struct CancelResponse {
    pub status: String,
    pub order_id: u64,
}

impl CancelResponse {
    /// Builds the response for a cancel whose outcome was `removed`.
    pub fn from_outcome(order_id: u64, removed: bool) -> (r: CancelResponse)
        ensures
            r.order_id == order_id,
            removed ==> r.status@ == "ok"@,
            !removed ==> r.status@ == "not_found"@,
    {
        if removed {
            CancelResponse { status: "ok".to_string(), order_id }
        } else {
            CancelResponse { status: "not_found".to_string(), order_id }
        }
    }
}

} // verus!
