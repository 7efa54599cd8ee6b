//! The decision logic of the request path: what the counting
//! middleware does to the store, and what the `/ping` route answers.
//! Listening, routing and connection metadata stay with the HTTP
//! stack; this module is handed the peer address, if one was found.

use vstd::prelude::*;

use crate::ip::Ip;
use crate::store::{incremented, CounterStore};

verus! {

/// The fixed body of the `/ping` response.
pub fn ping_body() -> (r: String)
    ensures
        r@ == "hi murmur"@,
{
    String::from_str("hi murmur")
}

/// What the counting middleware does before the handler runs: if a
/// peer address was extracted, count the request for it; if none was,
/// skip counting silently. Nothing else changes.
pub fn record_request(store: &mut CounterStore, peer: Option<Ip>)
    ensures
        final(store)@ == match peer {
            Some(ip) => incremented(old(store)@, ip),
            None => old(store)@,
        },
{
    match peer {
        Some(ip) => store.increment(ip),
        None => {},
    }
}

/// One counted request to `GET /ping`: the middleware step, then the
/// handler. Whatever the counter state and whether or not a peer
/// address was found, the response is status 200 with body
/// `hi murmur`.
pub fn handle_ping(store: &mut CounterStore, peer: Option<Ip>) -> (r: (u16, String))
    ensures
        r.0 == 200,
        r.1@ == "hi murmur"@,
        final(store)@ == match peer {
            Some(ip) => incremented(old(store)@, ip),
            None => old(store)@,
        },
{
    record_request(store, peer);
    (200u16, ping_body())
}

} // verus!
