//! The periodic report: the counter table, ordered by count
//! descending, rendered as text lines between a header and a
//! separator.

use vstd::prelude::*;

use crate::ip::{dec_chars, ip_chars, ip_string, u64_string, Ip};
use crate::sort::{sort_desc, sorted_desc};
use crate::store::{map_of, unique_ips, CounterStore, Entry};

verus! {

/// The header line above the per-address lines.
pub open spec fn header_chars() -> Seq<char> {
    seq!['I', 'P', 's', ':']
}

/// The separator line below the per-address lines: 25 dashes.
pub open spec fn separator_chars() -> Seq<char> {
    seq![
        '-', '-', '-', '-', '-', '-', '-', '-', '-', '-', '-', '-', '-', '-', '-', '-', '-', '-',
        '-', '-', '-', '-', '-', '-', '-',
    ]
}

/// One line of the report: the address, a colon and a space, and the
/// count in decimal.
pub open spec fn entry_line_chars(e: Entry) -> Seq<char> {
    ip_chars(e.ip) + seq![':', ' '] + dec_chars(e.count as int)
}

/// Render one entry of the report, exactly `entry_line_chars(*e)`.
pub fn entry_line(e: &Entry) -> (r: String)
    ensures
        r@ == entry_line_chars(*e),
{
    let mut s = ip_string(&e.ip);
    s.append(": ");
    s.append(u64_string(e.count).as_str());
    proof {
        reveal_strlit(": ");
        assert(s@ =~= entry_line_chars(*e));
    }
    s
}

/// Render a whole report block: the header line, one line per entry
/// in the given order, and the separator line.
pub fn report_lines(entries: &Vec<Entry>) -> (r: Vec<String>)
    ensures
        r@.len() == entries@.len() + 2,
        r@[0]@ == header_chars(),
        r@[r@.len() - 1]@ == separator_chars(),
        forall|i: int|
            0 <= i < entries@.len() ==> r@[i + 1]@ == entry_line_chars(#[trigger] entries@[i]),
{
    let mut out: Vec<String> = Vec::new();
    let h = String::from_str("IPs:");
    proof {
        reveal_strlit("IPs:");
        assert(h@ =~= header_chars());
    }
    out.push(h);
    let n = entries.len();
    let mut i: usize = 0;
    while i < n
        invariant
            n == entries@.len(),
            0 <= i <= n,
            out@.len() == i + 1,
            out@[0]@ == header_chars(),
            forall|j: int|
                0 <= j < i ==> out@[j + 1]@ == entry_line_chars(#[trigger] entries@[j]),
        decreases n - i,
    {
        let e = entries[i];
        out.push(entry_line(&e));
        i += 1;
    }
    let sep = String::from_str("-------------------------");
    proof {
        reveal_strlit("-------------------------");
        assert(sep@ =~= separator_chars());
    }
    out.push(sep);
    out
}

/// One reporter tick: snapshot the store, order the entries by count
/// descending, and render the report block. The lines between header
/// and separator render some descending-ordered arrangement of the
/// table, one line per recorded address; for an empty table the block
/// is just the header and the separator.
pub fn tick_report(store: &CounterStore) -> (r: Vec<String>)
    ensures
        r@.len() >= 2,
        r@[0]@ == header_chars(),
        r@[r@.len() - 1]@ == separator_chars(),
        exists|s: Seq<Entry>|
            {
                &&& #[trigger] map_of(s) == store@
                &&& unique_ips(s)
                &&& sorted_desc(s)
                &&& r@.len() == s.len() + 2
                &&& forall|i: int| 0 <= i < s.len() ==> r@[i + 1]@ == entry_line_chars(#[trigger] s[i])
            },
        store@ == Map::<Ip, u64>::empty() ==> r@.len() == 2,
{
    let snap = store.snapshot();
    let sorted = sort_desc(snap);
    proof {
        crate::store::lemma_permutation_preserves_table(snap@, sorted@);
        crate::store::lemma_map_of_contains(sorted@);
        if store@ == Map::<Ip, u64>::empty() {
            if sorted@.len() > 0 {
                assert(crate::store::has_ip(sorted@, sorted@[0].ip));
                assert(map_of(sorted@).contains_key(sorted@[0].ip));
            }
        }
    }
    let r = report_lines(&sorted);
    proof {
        let ghost w = sorted@;
        assert({
            &&& map_of(w) == store@
            &&& unique_ips(w)
            &&& sorted_desc(w)
            &&& r@.len() == w.len() + 2
            &&& forall|i: int| 0 <= i < w.len() ==> r@[i + 1]@ == entry_line_chars(#[trigger] w[i])
        });
    }
    r
}

} // verus!
