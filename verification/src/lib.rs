//! A verified core for a tiny request-counting HTTP service: a counter
//! table keyed by source IP, the decision logic of the counting
//! middleware and of the `/ping` route, and the periodic report that
//! sorts counts in descending order and renders them as text lines.

pub mod http;
pub mod ip;
pub mod report;
pub mod sort;
pub mod store;
