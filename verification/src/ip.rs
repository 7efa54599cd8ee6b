//! IP addresses as plain integers, and their textual rendering.

use vstd::prelude::*;

verus! {

/// A source IP address, held as plain integers: four octets for a
/// 32-bit address, eight 16-bit groups for a 128-bit address.
#[derive(Clone, Copy, PartialEq, Eq, Structural, Debug)]
pub enum Ip {
    V4 { a: u8, b: u8, c: u8, d: u8 },
    V6 { g0: u16, g1: u16, g2: u16, g3: u16, g4: u16, g5: u16, g6: u16, g7: u16 },
}

/// The decimal digit character for `d`, which must be in `0..10`.
pub open spec fn digit_char(d: int) -> char {
    if d == 0 {
        '0'
    } else if d == 1 {
        '1'
    } else if d == 2 {
        '2'
    } else if d == 3 {
        '3'
    } else if d == 4 {
        '4'
    } else if d == 5 {
        '5'
    } else if d == 6 {
        '6'
    } else if d == 7 {
        '7'
    } else if d == 8 {
        '8'
    } else {
        '9'
    }
}

/// The decimal rendering of a non-negative integer, most significant
/// digit first, with no leading zeros (zero itself is "0").
pub open spec fn dec_chars(n: int) -> Seq<char>
    decreases n,
{
    if n < 10 {
        seq![digit_char(n)]
    } else {
        dec_chars(n / 10) + seq![digit_char(n % 10)]
    }
}

/// The lowercase hexadecimal digit character for `d`, in `0..16`.
pub open spec fn hex_char(d: int) -> char {
    if d < 10 {
        digit_char(d)
    } else if d == 10 {
        'a'
    } else if d == 11 {
        'b'
    } else if d == 12 {
        'c'
    } else if d == 13 {
        'd'
    } else if d == 14 {
        'e'
    } else {
        'f'
    }
}

/// The lowercase hexadecimal rendering of a non-negative integer,
/// most significant digit first, with no leading zeros.
pub open spec fn hex_chars(n: int) -> Seq<char>
    decreases n,
{
    if n < 16 {
        seq![hex_char(n)]
    } else {
        hex_chars(n / 16) + seq![hex_char(n % 16)]
    }
}

/// The textual form of an address: dotted decimal octets for `V4`,
/// colon-separated lowercase hexadecimal groups for `V6`.
pub open spec fn ip_chars(ip: Ip) -> Seq<char> {
    match ip {
        Ip::V4 { a, b, c, d } => dec_chars(a as int) + seq!['.'] + dec_chars(b as int)
            + seq!['.'] + dec_chars(c as int) + seq!['.'] + dec_chars(d as int),
        Ip::V6 { g0, g1, g2, g3, g4, g5, g6, g7 } => hex_chars(g0 as int) + seq![':']
            + hex_chars(g1 as int) + seq![':'] + hex_chars(g2 as int) + seq![':']
            + hex_chars(g3 as int) + seq![':'] + hex_chars(g4 as int) + seq![':']
            + hex_chars(g5 as int) + seq![':'] + hex_chars(g6 as int) + seq![':']
            + hex_chars(g7 as int),
    }
}

fn digit_str(d: u64) -> (r: &'static str)
    requires
        d < 10,
    ensures
        r@ == seq![digit_char(d as int)],
{
    proof {
        reveal_strlit("0");
        reveal_strlit("1");
        reveal_strlit("2");
        reveal_strlit("3");
        reveal_strlit("4");
        reveal_strlit("5");
        reveal_strlit("6");
        reveal_strlit("7");
        reveal_strlit("8");
        reveal_strlit("9");
    }
    let r: &'static str = match d {
        0 => "0",
        1 => "1",
        2 => "2",
        3 => "3",
        4 => "4",
        5 => "5",
        6 => "6",
        7 => "7",
        8 => "8",
        _ => "9",
    };
    proof {
        assert(r@ =~= seq![digit_char(d as int)]);
    }
    r
}

fn hex_digit_str(d: u64) -> (r: &'static str)
    requires
        d < 16,
    ensures
        r@ == seq![hex_char(d as int)],
{
    proof {
        reveal_strlit("a");
        reveal_strlit("b");
        reveal_strlit("c");
        reveal_strlit("d");
        reveal_strlit("e");
        reveal_strlit("f");
    }
    let r: &'static str = match d {
        0 => digit_str(0),
        1 => digit_str(1),
        2 => digit_str(2),
        3 => digit_str(3),
        4 => digit_str(4),
        5 => digit_str(5),
        6 => digit_str(6),
        7 => digit_str(7),
        8 => digit_str(8),
        9 => digit_str(9),
        10 => "a",
        11 => "b",
        12 => "c",
        13 => "d",
        14 => "e",
        _ => "f",
    };
    proof {
        assert(r@ =~= seq![hex_char(d as int)]);
    }
    r
}

/// The decimal rendering of `n`, exactly `dec_chars(n)`.
pub fn u64_string(n: u64) -> (r: String)
    ensures
        r@ == dec_chars(n as int),
    decreases n,
{
    if n < 10 {
        String::from_str(digit_str(n))
    } else {
        let mut s = u64_string(n / 10);
        s.append(digit_str(n % 10));
        proof {
            assert(s@ =~= dec_chars(n as int));
        }
        s
    }
}

/// The lowercase hexadecimal rendering of `n`, exactly `hex_chars(n)`.
pub fn u16_hex_string(n: u16) -> (r: String)
    ensures
        r@ == hex_chars(n as int),
    decreases n,
{
    if n < 16 {
        String::from_str(hex_digit_str(n as u64))
    } else {
        let mut s = u16_hex_string(n / 16);
        s.append(hex_digit_str((n % 16) as u64));
        proof {
            assert(s@ =~= hex_chars(n as int));
        }
        s
    }
}

/// The textual form of an address, exactly `ip_chars(*ip)`.
pub fn ip_string(ip: &Ip) -> (r: String)
    ensures
        r@ == ip_chars(*ip),
{
    proof {
        reveal_strlit(".");
        reveal_strlit(":");
    }
    match ip {
        Ip::V4 { a, b, c, d } => {
            let mut s = u64_string(*a as u64);
            s.append(".");
            s.append(u64_string(*b as u64).as_str());
            s.append(".");
            s.append(u64_string(*c as u64).as_str());
            s.append(".");
            s.append(u64_string(*d as u64).as_str());
            proof {
                assert(s@ =~= ip_chars(*ip));
            }
            s
        },
        Ip::V6 { g0, g1, g2, g3, g4, g5, g6, g7 } => {
            let mut s = u16_hex_string(*g0);
            s.append(":");
            s.append(u16_hex_string(*g1).as_str());
            s.append(":");
            s.append(u16_hex_string(*g2).as_str());
            s.append(":");
            s.append(u16_hex_string(*g3).as_str());
            s.append(":");
            s.append(u16_hex_string(*g4).as_str());
            s.append(":");
            s.append(u16_hex_string(*g5).as_str());
            s.append(":");
            s.append(u16_hex_string(*g6).as_str());
            s.append(":");
            s.append(u16_hex_string(*g7).as_str());
            proof {
                assert(s@ =~= ip_chars(*ip));
            }
            s
        },
    }
}

} // verus!
