//! Plain data of the query and subscription API.

use vstd::prelude::*;

verus! {

/// Root of the queries.
pub struct QueryRoot;

impl QueryRoot {
    /// Health probe.
    pub fn health(&self) -> (r: &'static str)
        ensures
            r@ == "ok"@,
    {
        "ok"
    }
}

/// One event as delivered to subscribers: its variant and its JSON text.
pub struct EventDto {
    pub kind: String,
    pub payload: String,
}

/// Root of the subscriptions.
pub struct SubscriptionRoot;

} // verus!
