//! Sorting through the standard library, and removal of repeated values.

use vstd::prelude::*;

verus! {

broadcast use vstd::seq_lib::group_to_multiset_ensures;

pub open spec fn sorted_u32(s: Seq<u32>) -> bool {
    forall|i: int, j: int| 0 <= i <= j < s.len() ==> s[i] <= s[j]
}

pub open spec fn strictly_increasing_u32(s: Seq<u32>) -> bool {
    forall|i: int, j: int| 0 <= i < j < s.len() ==> s[i] < s[j]
}

pub open spec fn sorted_u64(s: Seq<u64>) -> bool {
    forall|i: int, j: int| 0 <= i <= j < s.len() ==> s[i] <= s[j]
}

pub open spec fn strictly_increasing_u64(s: Seq<u64>) -> bool {
    forall|i: int, j: int| 0 <= i < j < s.len() ==> s[i] < s[j]
}

/// `<[u32]>::sort_unstable`: ascending order, same elements.
#[verifier::external_body]
pub(crate) fn sort_u32(v: &mut Vec<u32>)
    ensures
        sorted_u32(final(v)@),
        final(v)@.to_multiset() == old(v)@.to_multiset(),
{
    v.sort_unstable();
}

/// `<[u64]>::sort_unstable`: ascending order, same elements.
#[verifier::external_body]
pub(crate) fn sort_u64(v: &mut Vec<u64>)
    ensures
        sorted_u64(final(v)@),
        final(v)@.to_multiset() == old(v)@.to_multiset(),
{
    v.sort_unstable();
}

/// Drop repeated values from an ascending sequence.
pub fn dedup_sorted_u32(v: &Vec<u32>) -> (r: Vec<u32>)
    requires
        sorted_u32(v@),
    ensures
        strictly_increasing_u32(r@),
        forall|x: u32| r@.contains(x) <==> v@.contains(x),
{
    let mut out: Vec<u32> = Vec::new();
    let mut i: usize = 0;
    while i < v.len()
        invariant
            0 <= i <= v@.len(),
            sorted_u32(v@),
            strictly_increasing_u32(out@),
            forall|x: u32| out@.contains(x) <==> v@.take(i as int).contains(x),
            out@.len() > 0 ==> i > 0 && out@.last() == v@[i - 1],
        decreases v@.len() - i,
    {
        let x = v[i];
        let ghost prev = out@;
        if out.len() == 0 || out[out.len() - 1] != x {
            out.push(x);
            assert forall|a: int, b: int| 0 <= a < b < out@.len() implies out@[a] < out@[b] by {
                if b == out@.len() - 1 && a < b {
                    assert(prev[a] <= prev.last());
                    assert(v@[i - 1] <= v@[i as int]);
                }
            }
        }
        assert forall|y: u32| out@.contains(y) <==> v@.take(i + 1).contains(y) by {
            if v@.take(i + 1).contains(y) {
                let k = choose|k: int| 0 <= k < i + 1 && #[trigger] v@.take(i + 1)[k] == y;
                if k < i {
                    assert(v@.take(i as int)[k] == y);
                    assert(v@.take(i as int).contains(y));
                    assert(prev.contains(y));
                    let k3 = choose|k3: int| 0 <= k3 < prev.len() && #[trigger] prev[k3] == y;
                    assert(out@[k3] == y);
                } else {
                    assert(out@.last() == y);
                    assert(out@[out@.len() - 1] == y);
                }
            }
            if out@.contains(y) {
                let k = choose|k: int| 0 <= k < out@.len() && #[trigger] out@[k] == y;
                if k < prev.len() {
                    assert(prev[k] == y);
                    assert(prev.contains(y));
                    assert(v@.take(i as int).contains(y));
                    let k2 = choose|k2: int| 0 <= k2 < i && #[trigger] v@.take(i as int)[k2] == y;
                    assert(v@.take(i + 1)[k2] == y);
                } else {
                    assert(v@.take(i + 1)[i as int] == y);
                }
            }
        }
        i = i + 1;
    }
    assert(v@.take(v@.len() as int) =~= v@);
    out
}

/// Drop repeated values from an ascending sequence of u64.
pub fn dedup_sorted_u64(v: &Vec<u64>) -> (r: Vec<u64>)
    requires
        sorted_u64(v@),
    ensures
        strictly_increasing_u64(r@),
        forall|x: u64| r@.contains(x) <==> v@.contains(x),
{
    let mut out: Vec<u64> = Vec::new();
    let mut i: usize = 0;
    while i < v.len()
        invariant
            0 <= i <= v@.len(),
            sorted_u64(v@),
            strictly_increasing_u64(out@),
            forall|x: u64| out@.contains(x) <==> v@.take(i as int).contains(x),
            out@.len() > 0 ==> i > 0 && out@.last() == v@[i - 1],
        decreases v@.len() - i,
    {
        let x = v[i];
        let ghost prev = out@;
        if out.len() == 0 || out[out.len() - 1] != x {
            out.push(x);
            assert forall|a: int, b: int| 0 <= a < b < out@.len() implies out@[a] < out@[b] by {
                if b == out@.len() - 1 && a < b {
                    assert(prev[a] <= prev.last());
                    assert(v@[i - 1] <= v@[i as int]);
                }
            }
        }
        assert forall|y: u64| out@.contains(y) <==> v@.take(i + 1).contains(y) by {
            if v@.take(i + 1).contains(y) {
                let k = choose|k: int| 0 <= k < i + 1 && #[trigger] v@.take(i + 1)[k] == y;
                if k < i {
                    assert(v@.take(i as int)[k] == y);
                    assert(v@.take(i as int).contains(y));
                    assert(prev.contains(y));
                    let k3 = choose|k3: int| 0 <= k3 < prev.len() && #[trigger] prev[k3] == y;
                    assert(out@[k3] == y);
                } else {
                    assert(out@.last() == y);
                    assert(out@[out@.len() - 1] == y);
                }
            }
            if out@.contains(y) {
                let k = choose|k: int| 0 <= k < out@.len() && #[trigger] out@[k] == y;
                if k < prev.len() {
                    assert(prev[k] == y);
                    assert(prev.contains(y));
                    assert(v@.take(i as int).contains(y));
                    let k2 = choose|k2: int| 0 <= k2 < i && #[trigger] v@.take(i as int)[k2] == y;
                    assert(v@.take(i + 1)[k2] == y);
                } else {
                    assert(v@.take(i + 1)[i as int] == y);
                }
            }
        }
        i = i + 1;
    }
    assert(v@.take(v@.len() as int) =~= v@);
    out
}

/// Equal multisets have the same members.
pub proof fn lemma_same_elements<A>(a: Seq<A>, b: Seq<A>)
    requires
        a.to_multiset() == b.to_multiset(),
    ensures
        forall|x: A| a.contains(x) <==> b.contains(x),
{
    assert forall|x: A| a.contains(x) <==> b.contains(x) by {
        assert(a.contains(x) <==> a.to_multiset().count(x) > 0);
        assert(b.contains(x) <==> b.to_multiset().count(x) > 0);
    }
}

/// Sorting keeps the elements, so membership is unchanged.
pub proof fn lemma_same_elements_u32(a: Seq<u32>, b: Seq<u32>)
    requires
        a.to_multiset() == b.to_multiset(),
    ensures
        forall|x: u32| a.contains(x) <==> b.contains(x),
{
    assert forall|x: u32| a.contains(x) <==> b.contains(x) by {
        assert(a.contains(x) <==> a.to_multiset().count(x) > 0);
        assert(b.contains(x) <==> b.to_multiset().count(x) > 0);
    }
}

} // verus!
