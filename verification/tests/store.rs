use ping_counter::ip::Ip;
use ping_counter::report::tick_report;
use ping_counter::store::CounterStore;

fn v4(a: u8, b: u8, c: u8, d: u8) -> Ip {
    Ip::V4 { a, b, c, d }
}

#[test]
fn fresh_store_has_no_counts() {
    let store = CounterStore::new();
    assert_eq!(store.count_of(v4(127, 0, 0, 1)), 0);
    assert!(store.snapshot().is_empty());
}

#[test]
fn increment_inserts_with_count_one() {
    let mut store = CounterStore::new();
    store.increment(v4(10, 0, 0, 1));
    assert_eq!(store.count_of(v4(10, 0, 0, 1)), 1);
}

#[test]
fn increment_does_not_touch_other_ips() {
    let mut store = CounterStore::new();
    let a = v4(10, 0, 0, 1);
    let b = v4(10, 0, 0, 2);
    store.increment(b);
    store.increment(a);
    store.increment(a);
    store.increment(a);
    assert_eq!(store.count_of(a), 3);
    assert_eq!(store.count_of(b), 1);
    let c = Ip::V6 { g0: 0, g1: 0, g2: 0, g3: 0, g4: 0, g5: 0, g6: 0, g7: 1 };
    assert_eq!(store.count_of(c), 0);
    store.increment(c);
    assert_eq!(store.count_of(a), 3);
    assert_eq!(store.count_of(b), 1);
    assert_eq!(store.count_of(c), 1);
}

#[test]
fn n_increments_count_exactly_n() {
    let mut store = CounterStore::new();
    let x = v4(192, 168, 1, 7);
    for _ in 0..100 {
        store.increment(x);
    }
    assert_eq!(store.count_of(x), 100);
}

#[test]
fn snapshot_reflects_completed_increments() {
    let mut store = CounterStore::new();
    let x = v4(8, 8, 8, 8);
    for _ in 0..5 {
        store.increment(x);
    }
    let snap = store.snapshot();
    assert_eq!(snap.len(), 1);
    assert_eq!(snap[0].ip, x);
    assert_eq!(snap[0].count, 5);
}

#[test]
fn fresh_store_reports_empty_ip_list() {
    let store = CounterStore::new();
    let lines = tick_report(&store);
    assert_eq!(lines.len(), 2);
    assert_eq!(lines[0], "IPs:");
    assert_eq!(lines[1], "-------------------------");
}
