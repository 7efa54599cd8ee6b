//! The counter table: a mapping from source IP to request count,
//! modelled as a `Map<Ip, u64>` and backed by a vector of entries with
//! pairwise-distinct addresses.

use vstd::prelude::*;

use crate::ip::Ip;

verus! {

/// One row of the counter table: an address and its cumulative count.
#[derive(Clone, Copy, PartialEq, Eq, Structural, Debug)]
pub struct Entry {
    pub ip: Ip,
    pub count: u64,
}

/// The mapping that a sequence of entries denotes; a later entry for
/// the same address would win, but the store keeps addresses distinct.
pub open spec fn map_of(s: Seq<Entry>) -> Map<Ip, u64>
    decreases s.len(),
{
    if s.len() == 0 {
        Map::empty()
    } else {
        map_of(s.drop_last()).insert(s.last().ip, s.last().count)
    }
}

/// Pairwise-distinct addresses.
pub open spec fn unique_ips(s: Seq<Entry>) -> bool {
    forall|i: int, j: int| 0 <= i < j < s.len() ==> s[i].ip != s[j].ip
}

/// The counter table after one request from `ip`: the count is raised
/// by one (an absent address starts at one); a count already at the
/// largest representable value stays there.
pub open spec fn incremented(m: Map<Ip, u64>, ip: Ip) -> Map<Ip, u64> {
    if m.contains_key(ip) {
        if m[ip] < u64::MAX {
            m.insert(ip, (m[ip] + 1) as u64)
        } else {
            m
        }
    } else {
        m.insert(ip, 1u64)
    }
}

/// The counter table after `n` requests from `ip`, one after another.
pub open spec fn incremented_n(m: Map<Ip, u64>, ip: Ip, n: nat) -> Map<Ip, u64>
    decreases n,
{
    if n == 0 {
        m
    } else {
        incremented(incremented_n(m, ip, (n - 1) as nat), ip)
    }
}

/// Some entry of `s` holds the address `ip`.
pub open spec fn has_ip(s: Seq<Entry>, ip: Ip) -> bool {
    exists|i: int| 0 <= i < s.len() && (#[trigger] s[i]).ip == ip
}

/// An address occurs in `map_of(s)` exactly when some entry holds it.
pub proof fn lemma_map_of_contains(s: Seq<Entry>)
    ensures
        forall|ip: Ip| #[trigger] map_of(s).contains_key(ip) <==> has_ip(s, ip),
    decreases s.len(),
{
    if s.len() == 0 {
    } else {
        let d = s.drop_last();
        lemma_map_of_contains(d);
        assert forall|ip: Ip| #[trigger] map_of(s).contains_key(ip) <==> has_ip(s, ip) by {
            if map_of(s).contains_key(ip) {
                if ip == s.last().ip {
                    assert(s[s.len() - 1].ip == ip);
                } else {
                    assert(map_of(d).contains_key(ip));
                    let k = choose|k: int| 0 <= k < d.len() && (#[trigger] d[k]).ip == ip;
                    assert(s[k].ip == ip);
                }
                assert(has_ip(s, ip));
            }
            if has_ip(s, ip) {
                let k = choose|k: int| 0 <= k < s.len() && (#[trigger] s[k]).ip == ip;
                if k < s.len() - 1 {
                    assert(d[k].ip == ip);
                    assert(has_ip(d, ip));
                    assert(map_of(d).contains_key(ip));
                }
                assert(map_of(s).contains_key(ip));
            }
        }
    }
}

/// With distinct addresses, `map_of(s)` maps each entry's address to
/// that entry's count.
pub proof fn lemma_map_of_index(s: Seq<Entry>, i: int)
    requires
        unique_ips(s),
        0 <= i < s.len(),
    ensures
        map_of(s).contains_key(s[i].ip),
        map_of(s)[s[i].ip] == s[i].count,
    decreases s.len(),
{
    if i == s.len() - 1 {
    } else {
        assert(unique_ips(s.drop_last()));
        assert(s.drop_last()[i] == s[i]);
        lemma_map_of_index(s.drop_last(), i);
        assert(s.last().ip != s[i].ip);
    }
}

/// Replacing the count at position `i` turns `map_of(s)` into an
/// insertion for that entry's address.
pub proof fn lemma_map_of_update(s: Seq<Entry>, i: int, c: u64)
    requires
        unique_ips(s),
        0 <= i < s.len(),
    ensures
        map_of(s.update(i, Entry { ip: s[i].ip, count: c })) == map_of(s).insert(s[i].ip, c),
    decreases s.len(),
{
    let e = Entry { ip: s[i].ip, count: c };
    let t = s.update(i, e);
    if i == s.len() - 1 {
        assert(t.drop_last() =~= s.drop_last());
        assert(map_of(t) =~= map_of(s).insert(s[i].ip, c));
    } else {
        assert(unique_ips(s.drop_last()));
        assert(s.drop_last()[i] == s[i]);
        lemma_map_of_update(s.drop_last(), i, c);
        assert(t.drop_last() =~= s.drop_last().update(i, e));
        assert(t.last() == s.last());
        assert(s.last().ip != s[i].ip);
        assert(map_of(t) =~= map_of(s).insert(s[i].ip, c));
    }
}

/// Appending an entry turns `map_of(s)` into an insertion for it.
pub proof fn lemma_map_of_push(s: Seq<Entry>, e: Entry)
    ensures
        map_of(s.push(e)) == map_of(s).insert(e.ip, e.count),
{
    assert(s.push(e).drop_last() =~= s);
    assert(s.push(e).last() == e);
}

/// The verified counter store: created empty, written by the request
/// path, read by the reporter.
pub struct CounterStore {
    entries: Vec<Entry>,
}

impl View for CounterStore {
    type V = Map<Ip, u64>;

    closed spec fn view(&self) -> Map<Ip, u64> {
        map_of(self.entries@)
    }
}

impl CounterStore {
    #[verifier::type_invariant]
    spec fn inv(self) -> bool {
        unique_ips(self.entries@)
    }

    /// A fresh store holds no address at all.
    pub fn new() -> (r: Self)
        ensures
            r@ == Map::<Ip, u64>::empty(),
    {
        let r = CounterStore { entries: Vec::new() };
        proof {
            assert(r@ =~= Map::<Ip, u64>::empty());
        }
        r
    }

    /// The count recorded for `ip`; an absent address counts as zero.
    pub fn count_of(&self, ip: Ip) -> (c: u64)
        ensures
            self@.contains_key(ip) ==> c == self@[ip],
            !self@.contains_key(ip) ==> c == 0,
    {
        proof {
            use_type_invariant(&*self);
            lemma_map_of_contains(self.entries@);
        }
        let n = self.entries.len();
        let mut i: usize = 0;
        while i < n
            invariant
                n == self.entries@.len(),
                0 <= i <= n,
                unique_ips(self.entries@),
                forall|j: int| 0 <= j < i ==> (#[trigger] self.entries@[j]).ip != ip,
                forall|q: Ip| #[trigger] map_of(self.entries@).contains_key(q) <==> has_ip(
                    self.entries@,
                    q,
                ),
            decreases n - i,
        {
            if self.entries[i].ip == ip {
                proof {
                    lemma_map_of_index(self.entries@, i as int);
                }
                return self.entries[i].count;
            }
            i += 1;
        }
        proof {
            assert(!has_ip(self.entries@, ip)) by {
                if has_ip(self.entries@, ip) {
                    let k = choose|k: int|
                        0 <= k < self.entries@.len() && (#[trigger] self.entries@[k]).ip == ip;
                }
            }
            assert(!self@.contains_key(ip));
        }
        0
    }

    /// Record one request from `ip`: insert it with count one if it is
    /// absent, else raise its count by one (saturating at the largest
    /// representable value). No other address is touched.
    pub fn increment(&mut self, ip: Ip)
        ensures
            final(self)@ == incremented(old(self)@, ip),
    {
        proof {
            use_type_invariant(&*self);
        }
        let mut entries: Vec<Entry> = Vec::new();
        std::mem::swap(&mut entries, &mut self.entries);
        let ghost orig: Seq<Entry> = entries@;
        let n = entries.len();
        let mut i: usize = 0;
        while i < n
            invariant
                n == entries@.len(),
                0 <= i <= n,
                entries@ == orig,
                unique_ips(orig),
                old(self)@ == map_of(orig),
                forall|j: int| 0 <= j < i ==> (#[trigger] orig[j]).ip != ip,
            decreases n - i,
        {
            if entries[i].ip == ip {
                let c = entries[i].count;
                let newc: u64 = if c < u64::MAX {
                    c + 1
                } else {
                    c
                };
                entries.set(i, Entry { ip: ip, count: newc });
                proof {
                    lemma_map_of_index(orig, i as int);
                    lemma_map_of_update(orig, i as int, newc);
                    assert forall|j: int, k: int| 0 <= j < k < entries@.len() implies
                        entries@[j].ip != entries@[k].ip by {
                        assert(entries@[j].ip == orig[j].ip);
                        assert(entries@[k].ip == orig[k].ip);
                    }
                    if c == u64::MAX {
                        assert(orig.update(i as int, Entry { ip: ip, count: newc }) =~= orig);
                        assert(map_of(entries@) =~= incremented(map_of(orig), ip));
                    }
                }
                self.entries = entries;
                return;
            }
            i += 1;
        }
        entries.push(Entry { ip: ip, count: 1 });
        proof {
            lemma_map_of_push(orig, Entry { ip: ip, count: 1 });
            lemma_map_of_contains(orig);
            assert(!has_ip(orig, ip)) by {
                if has_ip(orig, ip) {
                    let k = choose|k: int| 0 <= k < orig.len() && (#[trigger] orig[k]).ip == ip;
                }
            }
            assert(!map_of(orig).contains_key(ip));
            assert forall|j: int, k: int| 0 <= j < k < entries@.len() implies
                entries@[j].ip != entries@[k].ip by {
                if k < orig.len() {
                    assert(entries@[j].ip == orig[j].ip);
                    assert(entries@[k].ip == orig[k].ip);
                } else {
                    assert(entries@[j].ip == orig[j].ip);
                    assert(entries@[k].ip == ip);
                }
            }
        }
        self.entries = entries;
    }

    /// A consistent copy of the whole table, one entry per address.
    pub fn snapshot(&self) -> (r: Vec<Entry>)
        ensures
            unique_ips(r@),
            map_of(r@) == self@,
    {
        proof {
            use_type_invariant(&*self);
        }
        let n = self.entries.len();
        let mut out: Vec<Entry> = Vec::new();
        let mut i: usize = 0;
        while i < n
            invariant
                n == self.entries@.len(),
                0 <= i <= n,
                out@ == self.entries@.take(i as int),
            decreases n - i,
        {
            out.push(self.entries[i]);
            proof {
                assert(out@ =~= self.entries@.take(i + 1));
            }
            i += 1;
        }
        proof {
            assert(out@ =~= self.entries@);
        }
        out
    }
}

proof fn lemma_count_two(s: Seq<Entry>, i: int, j: int)
    requires
        0 <= i < j < s.len(),
        s[i] == s[j],
    ensures
        s.to_multiset().count(s[i]) >= 2,
{
    broadcast use vstd::seq_lib::group_to_multiset_ensures;
    broadcast use vstd::multiset::group_multiset_axioms;

    let e = s[i];
    assert(s.remove(i).to_multiset() =~= s.to_multiset().remove(e));
    assert(s.remove(i)[j - 1] == e);
    assert(s.remove(i).contains(e));
    assert(s.remove(i).to_multiset().count(e) > 0);
}

proof fn lemma_two_indices(s: Seq<Entry>, e: Entry)
    requires
        s.to_multiset().count(e) >= 2,
    ensures
        exists|i: int, j: int|
            0 <= i < j < s.len() && (#[trigger] s[i]) == e && (#[trigger] s[j]) == e,
{
    broadcast use vstd::seq_lib::group_to_multiset_ensures;
    broadcast use vstd::multiset::group_multiset_axioms;

    assert(s.contains(e));
    let k = choose|k: int| 0 <= k < s.len() && (#[trigger] s[k]) == e;
    assert(s.remove(k).to_multiset() =~= s.to_multiset().remove(e));
    assert(s.remove(k).to_multiset().count(e) >= 1);
    assert(s.remove(k).contains(e));
    let l = choose|l: int| 0 <= l < s.remove(k).len() && (#[trigger] s.remove(k)[l]) == e;
    if l < k {
        assert(s[l] == e && s[k] == e);
    } else {
        assert(s[l + 1] == s.remove(k)[l]);
        assert(s[k] == e && s[l + 1] == e);
    }
}

/// Rearranging the entries of a well-formed snapshot (the same
/// entries, with the same multiplicities) keeps its addresses
/// pairwise distinct and denotes the same counter table.
pub proof fn lemma_permutation_preserves_table(s: Seq<Entry>, t: Seq<Entry>)
    requires
        unique_ips(s),
        s.to_multiset() == t.to_multiset(),
    ensures
        unique_ips(t),
        map_of(t) == map_of(s),
{
    broadcast use vstd::seq_lib::group_to_multiset_ensures;
    broadcast use vstd::multiset::group_multiset_axioms;

    assert forall|i: int, j: int| 0 <= i < j < t.len() implies (#[trigger] t[i]).ip
        != (#[trigger] t[j]).ip by {
        if t[i].ip == t[j].ip {
            if t[i] == t[j] {
                lemma_count_two(t, i, j);
                lemma_two_indices(s, t[i]);
                let (a, b): (int, int) = choose|a: int, b: int|
                    0 <= a < b < s.len() && (#[trigger] s[a]) == t[i] && (#[trigger] s[b]) == t[i];
                assert(s[a].ip == s[b].ip);
            } else {
                assert(t.contains(t[i]) && t.contains(t[j]));
                assert(t.to_multiset().count(t[i]) > 0 && t.to_multiset().count(t[j]) > 0);
                assert(s.to_multiset().count(t[i]) > 0 && s.to_multiset().count(t[j]) > 0);
                assert(s.contains(t[i]) && s.contains(t[j]));
                let a = choose|a: int| 0 <= a < s.len() && (#[trigger] s[a]) == t[i];
                let b = choose|b: int| 0 <= b < s.len() && (#[trigger] s[b]) == t[j];
                assert(a != b);
                assert(s[a].ip == s[b].ip);
            }
        }
    }
    lemma_map_of_contains(s);
    lemma_map_of_contains(t);
    assert forall|ip: Ip| has_ip(s, ip) == has_ip(t, ip) by {
        if has_ip(s, ip) {
            let i = choose|i: int| 0 <= i < s.len() && (#[trigger] s[i]).ip == ip;
            assert(s.contains(s[i]));
            assert(s.to_multiset().count(s[i]) > 0);
            assert(t.to_multiset().count(s[i]) > 0);
            assert(t.contains(s[i]));
            let j = choose|j: int| 0 <= j < t.len() && (#[trigger] t[j]) == s[i];
            assert(t[j].ip == ip);
            assert(has_ip(t, ip));
        }
        if has_ip(t, ip) {
            let i = choose|i: int| 0 <= i < t.len() && (#[trigger] t[i]).ip == ip;
            assert(t.contains(t[i]));
            assert(t.to_multiset().count(t[i]) > 0);
            assert(s.to_multiset().count(t[i]) > 0);
            assert(s.contains(t[i]));
            let j = choose|j: int| 0 <= j < s.len() && (#[trigger] s[j]) == t[i];
            assert(s[j].ip == ip);
            assert(has_ip(s, ip));
        }
    }
    assert forall|ip: Ip| #[trigger] map_of(s).contains_key(ip) implies map_of(t)[ip] == map_of(
        s,
    )[ip] by {
        let i = choose|i: int| 0 <= i < s.len() && (#[trigger] s[i]).ip == ip;
        lemma_map_of_index(s, i);
        assert(s.contains(s[i]));
        assert(s.to_multiset().count(s[i]) > 0);
        assert(t.to_multiset().count(s[i]) > 0);
        assert(t.contains(s[i]));
        let j = choose|j: int| 0 <= j < t.len() && (#[trigger] t[j]) == s[i];
        lemma_map_of_index(t, j);
    }
    assert(map_of(t) =~= map_of(s));
}

/// Counting a request from `a` leaves every other address unchanged:
/// whether `b` is present, and its count if so, are as before.
pub proof fn lemma_increment_independent(m: Map<Ip, u64>, a: Ip, b: Ip)
    requires
        a != b,
    ensures
        incremented(m, a).contains_key(b) == m.contains_key(b),
        m.contains_key(b) ==> incremented(m, a)[b] == m[b],
{
}

/// Counts are monotonically non-decreasing: counting a request never
/// removes an address from the table and never lowers a count.
pub proof fn lemma_increment_monotonic(m: Map<Ip, u64>, a: Ip)
    ensures
        forall|b: Ip| #[trigger] m.contains_key(b) ==> incremented(m, a).contains_key(b),
        forall|b: Ip| #[trigger] m.contains_key(b) ==> incremented(m, a)[b] >= m[b],
{
}

/// After `n` requests from `x`, one after another, an address that
/// started absent is recorded with count exactly `n` (for positive `n`
/// up to the largest representable count), and every other address is
/// exactly as before: no update is lost.
pub proof fn lemma_repeated_increments(m: Map<Ip, u64>, x: Ip, n: nat)
    requires
        !m.contains_key(x),
        n <= u64::MAX,
    ensures
        n > 0 ==> incremented_n(m, x, n).contains_key(x) && incremented_n(m, x, n)[x] == n,
        forall|b: Ip|
            b != x ==> (#[trigger] incremented_n(m, x, n).contains_key(b)) == m.contains_key(b),
        forall|b: Ip|
            b != x && m.contains_key(b) ==> (#[trigger] incremented_n(m, x, n)[b]) == m[b],
    decreases n,
{
    if n == 0 {
    } else {
        lemma_repeated_increments(m, x, (n - 1) as nat);
        let prev = incremented_n(m, x, (n - 1) as nat);
        assert(incremented_n(m, x, n) == incremented(prev, x));
        if n == 1 {
            assert(incremented(prev, x) == m.insert(x, 1u64));
        } else {
            assert(prev.contains_key(x) && prev[x] == n - 1);
            assert(n - 1 < u64::MAX);
            assert(incremented(prev, x) == prev.insert(x, (n) as u64));
        }
    }
}

/// A snapshot taken after `n` completed requests from `x`, with none
/// in flight, reports `x` with count exactly `n`: some entry of the
/// snapshot holds `x` and `n`.
pub proof fn lemma_snapshot_after_increments(m: Map<Ip, u64>, x: Ip, n: nat, s: Seq<Entry>)
    requires
        !m.contains_key(x),
        1 <= n <= u64::MAX,
        unique_ips(s),
        map_of(s) == incremented_n(m, x, n),
    ensures
        exists|i: int| 0 <= i < s.len() && (#[trigger] s[i]).ip == x && s[i].count == n,
{
    lemma_repeated_increments(m, x, n);
    lemma_map_of_contains(s);
    assert(map_of(s).contains_key(x));
    assert(has_ip(s, x));
    let i = choose|i: int| 0 <= i < s.len() && (#[trigger] s[i]).ip == x;
    lemma_map_of_index(s, i);
    assert(s[i].count == n);
}

} // verus!
