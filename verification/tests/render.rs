use ping_counter::ip::{ip_string, u16_hex_string, u64_string, Ip};
use ping_counter::report::{entry_line, report_lines, tick_report};
use ping_counter::store::{CounterStore, Entry};

#[test]
fn decimal_rendering() {
    assert_eq!(u64_string(0), "0");
    assert_eq!(u64_string(7), "7");
    assert_eq!(u64_string(10), "10");
    assert_eq!(u64_string(4444), "4444");
    assert_eq!(u64_string(u64::MAX), "18446744073709551615");
}

#[test]
fn hexadecimal_rendering() {
    assert_eq!(u16_hex_string(0), "0");
    assert_eq!(u16_hex_string(10), "a");
    assert_eq!(u16_hex_string(0x20), "20");
    assert_eq!(u16_hex_string(0xbeef), "beef");
    assert_eq!(u16_hex_string(0xffff), "ffff");
}

#[test]
fn v4_address_rendering() {
    let ip = Ip::V4 { a: 127, b: 4, c: 4, d: 4 };
    assert_eq!(ip_string(&ip), "127.4.4.4");
}

#[test]
fn v6_address_rendering() {
    let ip = Ip::V6 { g0: 0x2001, g1: 0xdb8, g2: 0, g3: 0, g4: 0, g5: 0, g6: 0, g7: 1 };
    assert_eq!(ip_string(&ip), "2001:db8:0:0:0:0:0:1");
}

#[test]
fn entry_rendering() {
    let e = Entry { ip: Ip::V4 { a: 10, b: 1, c: 2, d: 3 }, count: 42 };
    assert_eq!(entry_line(&e), "10.1.2.3: 42");
}

#[test]
fn report_block_layout() {
    let entries = vec![
        Entry { ip: Ip::V4 { a: 9, b: 0, c: 0, d: 1 }, count: 12 },
        Entry { ip: Ip::V4 { a: 9, b: 0, c: 0, d: 2 }, count: 3 },
    ];
    let lines = report_lines(&entries);
    assert_eq!(
        lines,
        vec![
            "IPs:".to_string(),
            "9.0.0.1: 12".to_string(),
            "9.0.0.2: 3".to_string(),
            "-------------------------".to_string(),
        ]
    );
}

#[test]
fn tick_report_is_sorted_descending() {
    let mut store = CounterStore::new();
    let hot = Ip::V4 { a: 1, b: 2, c: 3, d: 4 };
    let cold = Ip::V4 { a: 5, b: 6, c: 7, d: 8 };
    store.increment(cold);
    store.increment(hot);
    store.increment(hot);
    store.increment(hot);
    let lines = tick_report(&store);
    assert_eq!(
        lines,
        vec![
            "IPs:".to_string(),
            "1.2.3.4: 3".to_string(),
            "5.6.7.8: 1".to_string(),
            "-------------------------".to_string(),
        ]
    );
}
