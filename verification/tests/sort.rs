use ping_counter::ip::Ip;
use ping_counter::sort::sort_desc;
use ping_counter::store::Entry;

fn v4(a: u8, b: u8, c: u8, d: u8) -> Ip {
    Ip::V4 { a, b, c, d }
}

#[test]
fn sort_orders_ties_before_lower_counts() {
    let ip_a = v4(1, 1, 1, 1);
    let ip_b = v4(2, 2, 2, 2);
    let ip_c = v4(3, 3, 3, 3);
    let ip_d = v4(4, 4, 4, 4);
    let snapshot = vec![
        Entry { ip: ip_a, count: 3 },
        Entry { ip: ip_b, count: 7 },
        Entry { ip: ip_c, count: 7 },
        Entry { ip: ip_d, count: 1 },
    ];
    let sorted = sort_desc(snapshot);
    assert_eq!(sorted.len(), 4);
    assert_eq!(sorted[0].count, 7);
    assert_eq!(sorted[1].count, 7);
    assert!(
        (sorted[0].ip == ip_b && sorted[1].ip == ip_c)
            || (sorted[0].ip == ip_c && sorted[1].ip == ip_b)
    );
    assert_eq!(sorted[2], Entry { ip: ip_a, count: 3 });
    assert_eq!(sorted[3], Entry { ip: ip_d, count: 1 });
}

#[test]
fn sort_of_empty_is_empty() {
    let sorted = sort_desc(Vec::new());
    assert!(sorted.is_empty());
}

#[test]
fn sort_keeps_every_entry() {
    let e1 = Entry { ip: v4(9, 9, 9, 9), count: 2 };
    let e2 = Entry { ip: v4(5, 5, 5, 5), count: 11 };
    let e3 = Entry { ip: v4(6, 6, 6, 6), count: 4 };
    let sorted = sort_desc(vec![e1, e2, e3]);
    assert_eq!(sorted, vec![e2, e3, e1]);
}
