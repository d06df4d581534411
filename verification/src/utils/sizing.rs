use vstd::prelude::*;
use vstd::arithmetic::power2::{pow2, lemma2_to64, lemma_pow2_strictly_increases, lemma_pow2_unfold};
use vstd::relations::{
    antisymmetric, reflexive, sorted_by, strongly_connected, total_ordering, transitive,
};
use vstd::seq_lib::{lemma_sorted_unique, to_multiset_build, to_multiset_insert, to_multiset_len};

verus! {

/// Whether `k` is the least exponent whose power of two holds `d` hosts
/// and the two reserved addresses.
pub open spec fn is_size_exponent(d: nat, k: nat) -> bool {
    pow2(k) >= d + 2 && forall|j: nat| j < k ==> #[trigger] pow2(j) < d + 2
}

/// The least `k` with `2^k >= d + 2`.
pub open spec fn size_exponent(d: nat) -> nat {
    choose|k: nat| is_size_exponent(d, k)
}

/// There is only one least exponent.
pub proof fn lemma_size_exponent_unique(d: nat, k: nat)
    requires
        is_size_exponent(d, k),
    ensures
        size_exponent(d) == k,
{
    let c = size_exponent(d);
    assert(is_size_exponent(d, c));
    if c < k {
        assert(pow2(c) < d + 2);
    } else if k < c {
        assert(pow2(k) < d + 2);
    }
}

/// Finds the least exponent for a demand.
pub fn exponent_for(d: u32) -> (k: u8)
    ensures
        k == size_exponent(d as nat),
        is_size_exponent(d as nat, k as nat),
        1 <= k <= 33,
{
    let need: u64 = d as u64 + 2;
    let mut p: u64 = 1;
    let mut k: u8 = 0;
    proof {
        lemma2_to64();
    }
    while p < need
        invariant
            need == d + 2,
            p == pow2(k as nat),
            k <= 33,
            p <= 0x2_0000_0000,
            forall|j: nat| j < k ==> #[trigger] pow2(j) < need,
        decreases 34 - k,
    {
        proof {
            lemma2_to64();
            if k >= 33 {
                lemma_pow2_strictly_increases(32, k as nat);
            }
            lemma_pow2_unfold((k + 1) as nat);
            assert forall|j: nat| j < k + 1 implies #[trigger] pow2(j) < need by {
                if j < k {
                } else {
                    assert(j == k);
                }
            }
        }
        p = p * 2;
        k = k + 1;
    }
    proof {
        lemma2_to64();
        lemma_size_exponent_unique(d as nat, k as nat);
    }
    k
}

/// Largest demand first.
pub open spec fn demand_order() -> spec_fn(u32, u32) -> bool {
    |a: u32, b: u32| a >= b
}

/// The demands with the largest first. Equal demands are indistinguishable,
/// so there is only one such arrangement.
pub open spec fn largest_first(demands: Seq<u32>) -> Seq<u32> {
    demands.sort_by(demand_order())
}

/// The order of demands is a total order.
pub proof fn lemma_demand_order_total()
    ensures
        total_ordering(demand_order()),
{
    let r = demand_order();
    assert(reflexive(r));
    assert(antisymmetric(r));
    assert(transitive(r));
    assert(strongly_connected(r));
}

/// What `largest_first` yields: the same demands, as often as they were
/// given, none before a larger one.
pub proof fn lemma_largest_first(demands: Seq<u32>)
    ensures
        largest_first(demands).to_multiset() == demands.to_multiset(),
        largest_first(demands).len() == demands.len(),
        forall|i: int, j: int|
            0 <= i < j < demands.len() ==> largest_first(demands)[i] >= largest_first(demands)[j],
{
    lemma_demand_order_total();
    demands.lemma_sort_by_ensures(demand_order());
    to_multiset_len(demands);
    to_multiset_len(largest_first(demands));
    let s = largest_first(demands);
    assert forall|i: int, j: int| 0 <= i < j < demands.len() implies s[i] >= s[j] by {
        assert(demand_order()(s[i], s[j]));
    }
}

/// Arranges demands with the largest first. Among equal demands the one
/// given earlier stays earlier.
pub fn sort_largest_first(demands: &Vec<u32>) -> (out: Vec<u32>)
    ensures
        out@ == largest_first(demands@),
{
    let mut out: Vec<u32> = Vec::new();
    let n: usize = demands.len();
    let mut i: usize = 0;
    proof {
        assert(demands@.take(0) =~= out@);
    }
    while i < n
        invariant
            n == demands.len(),
            i <= n,
            out.len() == i,
            sorted_by(out@, demand_order()),
            out@.to_multiset() == demands@.take(i as int).to_multiset(),
        decreases n - i,
    {
        let x: u32 = demands[i];
        let mut pos: usize = 0;
        while pos < out.len() && out[pos] >= x
            invariant
                pos <= out.len(),
                forall|j: int| 0 <= j < pos ==> out[j] >= x,
            decreases out.len() - pos,
        {
            pos = pos + 1;
        }
        let ghost before = out@;
        out.insert(pos, x);
        proof {
            before.insert_ensures(pos as int, x);
            to_multiset_insert(before, pos as int, x);
            assert(demands@.take(i + 1) =~= demands@.take(i as int).push(x));
            to_multiset_build(demands@.take(i as int), x);
            assert forall|a: int, b: int| 0 <= a < b < out@.len() implies #[trigger] demand_order()(
                out@[a],
                out@[b],
            ) by {
                if b < pos {
                    assert(demand_order()(before[a], before[b]));
                } else if b == pos {
                } else if a < pos {
                    assert(demand_order()(before[a], before[b - 1]));
                } else if a == pos {
                    assert(out@[b] == before[b - 1]);
                    assert(demand_order()(before[pos as int], before[b - 1]) || b - 1 == pos);
                } else {
                    assert(out@[a] == before[a - 1]);
                    assert(out@[b] == before[b - 1]);
                    assert(demand_order()(before[a - 1], before[b - 1]));
                }
            }
        }
        i = i + 1;
    }
    proof {
        assert(demands@.take(n as int) =~= demands@);
        lemma_demand_order_total();
        demands@.lemma_sort_by_ensures(demand_order());
        lemma_sorted_unique(out@, largest_first(demands@), demand_order());
    }
    out
}

} // verus!
