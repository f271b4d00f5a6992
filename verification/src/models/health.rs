//! The health check's answer.
use vstd::prelude::*;

verus! {

#[derive(Debug, Clone)]
pub struct HealthResponse {
    pub status: String,
    pub uptime_seconds: u64,
    pub orders_processed: u64,
}

impl HealthResponse {
    /// A healthy service that has been up `uptime_seconds` and has processed
    /// `orders_processed` orders.
    pub fn healthy(uptime_seconds: u64, orders_processed: u64) -> (r: Self)
        ensures
            r.status@ == "healthy"@,
            r.uptime_seconds == uptime_seconds,
            r.orders_processed == orders_processed,
    {
        broadcast use vstd::string::to_string_from_display_ensures_for_str;

        HealthResponse { status: "healthy".to_string(), uptime_seconds, orders_processed }
    }
}

} // verus!
