//! Ordering a snapshot of the counter table by count, descending, for
//! the periodic report.

use vstd::multiset::Multiset;
use vstd::prelude::*;

use crate::store::Entry;

verus! {

/// Counts never rise along the sequence: every earlier entry has a
/// count at least as large as every later one.
pub open spec fn sorted_desc(s: Seq<Entry>) -> bool {
    forall|i: int, j: int| 0 <= i < j < s.len() ==> s[i].count >= s[j].count
}

/// Sort entries by count, descending. The result is exactly the input
/// rearranged: the same entries with the same multiplicities. Ties
/// may come out in either order.
pub fn sort_desc(v: Vec<Entry>) -> (r: Vec<Entry>)
    ensures
        sorted_desc(r@),
        r@.to_multiset() == v@.to_multiset(),
        r@.len() == v@.len(),
{
    broadcast use vstd::multiset::group_multiset_axioms;
    broadcast use vstd::seq_lib::group_to_multiset_ensures;

    let mut rest = v;
    let mut out: Vec<Entry> = Vec::new();
    while rest.len() > 0
        invariant
            sorted_desc(out@),
            forall|i: int, j: int|
                0 <= i < out@.len() && 0 <= j < rest@.len() ==> (#[trigger] out@[i]).count
                    >= (#[trigger] rest@[j]).count,
            out@.to_multiset().add(rest@.to_multiset()) == v@.to_multiset(),
            out@.len() + rest@.len() == v@.len(),
        decreases rest@.len(),
    {
        broadcast use vstd::multiset::group_multiset_axioms;
        broadcast use vstd::seq_lib::group_to_multiset_ensures;

        let mut m: usize = 0;
        let mut k: usize = 1;
        while k < rest.len()
            invariant
                0 < rest@.len(),
                0 <= m < rest@.len(),
                1 <= k <= rest@.len(),
                forall|j: int| 0 <= j < k ==> rest@[m as int].count >= (#[trigger] rest@[j]).count,
            decreases rest@.len() - k,
        {
            if rest[k].count > rest[m].count {
                m = k;
            }
            k += 1;
        }
        let ghost out0: Seq<Entry> = out@;
        let ghost rest0: Seq<Entry> = rest@;
        let e = rest.remove(m);
        out.push(e);
        proof {
            assert(e == rest0[m as int]);
            assert(rest@ == rest0.remove(m as int));
            assert(out@ == out0.push(e));
            assert(rest0.contains(e));
            assert(rest0.remove(m as int).to_multiset() =~= rest0.to_multiset().remove(e));
            assert(out0.push(e).to_multiset() =~= out0.to_multiset().insert(e));
            assert(rest0.to_multiset().count(e) > 0);
            assert(out@.to_multiset().add(rest@.to_multiset()) =~= v@.to_multiset());
            assert forall|i: int, j: int|
                0 <= i < j < out@.len() implies (#[trigger] out@[i]).count
                >= (#[trigger] out@[j]).count by {
                if j < out0.len() {
                    assert(out@[i] == out0[i] && out@[j] == out0[j]);
                } else {
                    assert(out@[j] == e);
                }
            }
            assert forall|i: int, j: int|
                0 <= i < out@.len() && 0 <= j < rest@.len() implies (#[trigger] out@[i]).count
                >= (#[trigger] rest@[j]).count by {
                let jj: int = if j < m { j } else { j + 1 };
                assert(rest@[j] == rest0[jj]);
                if i < out0.len() {
                    assert(out@[i] == out0[i]);
                } else {
                    assert(out@[i] == e);
                    assert(rest0[m as int].count >= rest0[jj].count);
                }
            }
        }
    }
    proof {
        assert(rest@ =~= Seq::<Entry>::empty());
        assert(rest@.to_multiset().len() == 0);
        assert(rest@.to_multiset() =~= Multiset::<Entry>::empty());
        assert(out@.to_multiset() =~= v@.to_multiset());
    }
    out
}

} // verus!
