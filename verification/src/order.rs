//! What the final order of events is made of: the median of claimed times
//! and the exclusive-or of signatures.
use vstd::prelude::*;
use vstd::relations::{sorted_by, total_ordering};
use vstd::seq_lib::{lemma_sorted_unique, to_multiset_insert};

verus! {

/// The order of times.
pub open spec fn time_leq() -> spec_fn(u128, u128) -> bool {
    |a: u128, b: u128| a <= b
}

/// The times in ascending order.
pub open spec fn sorted_times(times: Seq<u128>) -> Seq<u128> {
    times.sort_by(time_leq())
}

/// The median of a list of times that is not empty: of the times in
/// ascending order, the one in the middle, and of two in the middle the
/// later.
pub open spec fn median(times: Seq<u128>) -> u128 {
    sorted_times(times)[times.len() as int / 2]
}

/// The times in ascending order.
pub fn sort_times(times: &Vec<u128>) -> (out: Vec<u128>)
    ensures
        out@ == sorted_times(times@),
{
    let mut out: Vec<u128> = Vec::new();
    let mut i: usize = 0;
    assert(times@.subrange(0, 0) =~= Seq::<u128>::empty());
    while i < times.len()
        invariant
            i <= times@.len(),
            out@.len() == i,
            sorted_by(out@, time_leq()),
            out@.to_multiset() == times@.subrange(0, i as int).to_multiset(),
        decreases times@.len() - i,
    {
        let x = times[i];
        let mut at: usize = out.len();
        while at > 0 && out[at - 1] > x
            invariant
                at <= out@.len(),
                forall|k: int| at <= k < out@.len() ==> out@[k] > x,
            decreases at,
        {
            at -= 1;
        }
        let ghost before = out@;
        out.insert(at, x);
        proof {
            to_multiset_insert(before, at as int, x);
            let next = times@.subrange(0, i + 1);
            assert(next =~= times@.subrange(0, i as int).push(x));
            vstd::seq_lib::to_multiset_build(times@.subrange(0, i as int), x);
            assert forall|a: int, b: int| 0 <= a < b < out@.len() implies #[trigger] time_leq()(
                out@[a],
                out@[b],
            ) by {
                let a0 = if a < at {
                    a
                } else {
                    a - 1
                };
                let b0 = if b < at {
                    b
                } else {
                    b - 1
                };
                if a != at && b != at {
                    assert(time_leq()(before[a0], before[b0]));
                } else if b == at {
                    assert(before[at - 1] <= x);
                    if a < at - 1 {
                        assert(time_leq()(before[a], before[at - 1]));
                    }
                } else {
                    assert(out@[b] == before[b - 1]);
                }
            }
        }
        i += 1;
    }
    proof {
        assert(times@.subrange(0, i as int) =~= times@);
        lemma_time_order();
        times@.lemma_sort_by_ensures(time_leq());
        lemma_sorted_unique(out@, sorted_times(times@), time_leq());
    }
    out
}

/// The order of times is total.
pub proof fn lemma_time_order()
    ensures
        total_ordering(time_leq()),
{
    let leq = time_leq();
    assert(vstd::relations::reflexive(leq)) by {
        assert forall|x: u128| #[trigger] leq(x, x) by {}
    }
    assert(vstd::relations::antisymmetric(leq)) by {
        assert forall|x: u128, y: u128| #[trigger] leq(x, y) && #[trigger] leq(y, x) implies x
            == y by {}
    }
    assert(vstd::relations::transitive(leq)) by {
        assert forall|x: u128, y: u128, z: u128| #[trigger]
            leq(x, y) && #[trigger] leq(y, z) implies leq(x, z) by {}
    }
    assert(vstd::relations::strongly_connected(leq)) by {
        assert forall|x: u128, y: u128| #[trigger] leq(x, y) || #[trigger] leq(y, x) by {}
    }
}

/// The median of a list of times that is not empty.
pub fn median_of(times: &Vec<u128>) -> (m: u128)
    requires
        times@.len() > 0,
    ensures
        m == median(times@),
{
    let sorted = sort_times(times);
    proof {
        lemma_time_order();
        times@.lemma_sort_by_ensures(time_leq());
        vstd::seq_lib::to_multiset_len(times@);
        vstd::seq_lib::to_multiset_len(sorted@);
    }
    sorted[times.len() / 2]
}

/// The exclusive-or of two byte strings of equal length, byte by byte.
pub open spec fn xor_bytes(x: Seq<u8>, y: Seq<u8>) -> Seq<u8> {
    Seq::new(x.len(), |i: int| x[i] ^ y[i])
}

/// The exclusive-or of two signatures, byte by byte.
pub fn xor(x: &[u8; 64], y: &[u8; 64]) -> (out: [u8; 64])
    ensures
        out@ == xor_bytes(x@, y@),
{
    let mut n = [0u8; 64];
    let mut i: usize = 0;
    while i < 64
        invariant
            i <= 64,
            forall|j: int| 0 <= j < i ==> n[j] == x[j] ^ y[j],
        decreases 64 - i,
    {
        n[i] = x[i] ^ y[i];
        i += 1;
    }
    assert(n@ =~= xor_bytes(x@, y@));
    n
}

} // verus!
