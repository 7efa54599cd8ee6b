use ping_counter::http::{handle_ping, ping_body, record_request};
use ping_counter::ip::Ip;
use ping_counter::store::CounterStore;

fn peer() -> Ip {
    Ip::V4 { a: 127, b: 0, c: 0, d: 1 }
}

#[test]
fn ping_body_is_fixed() {
    assert_eq!(ping_body(), "hi murmur");
}

#[test]
fn ping_succeeds_whatever_the_counter_state() {
    let mut store = CounterStore::new();
    let (status, body) = handle_ping(&mut store, Some(peer()));
    assert_eq!(status, 200);
    assert_eq!(body, "hi murmur");
    for _ in 0..10 {
        store.increment(peer());
    }
    let (status, body) = handle_ping(&mut store, Some(peer()));
    assert_eq!(status, 200);
    assert_eq!(body, "hi murmur");
    let (status, body) = handle_ping(&mut store, None);
    assert_eq!(status, 200);
    assert_eq!(body, "hi murmur");
}

#[test]
fn counted_request_raises_the_peer_count() {
    let mut store = CounterStore::new();
    record_request(&mut store, Some(peer()));
    record_request(&mut store, Some(peer()));
    assert_eq!(store.count_of(peer()), 2);
}

#[test]
fn request_without_peer_metadata_is_not_counted() {
    let mut store = CounterStore::new();
    record_request(&mut store, None);
    assert_eq!(store.count_of(peer()), 0);
    assert!(store.snapshot().is_empty());
}
