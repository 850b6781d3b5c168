//! Ranking of neurons within each layer by a scalar metric.
//!
//! The metric is a per-neuron `f32` given by its IEEE 754 bit pattern;
//! neurons are ordered by the standard total order on `f32` (the one
//! `f32::total_cmp` implements), which every bit pattern — NaN included —
//! participates in, with ties broken by neuron index so the ranking is
//! deterministic. Two arrays come out of a metric of shape
//! `(num_layers, num_neurons)`:
//!
//! * `rank[layer][neuron]`: the neuron's position in the ascending sort
//!   of its layer (0 = smallest metric);
//! * `ranked_neurons[layer][r]`: the neuron occupying rank `r`.
//!
//! The two are exact inverses along the neuron axis.

use vstd::prelude::*;
use vstd::seq_lib::group_seq_properties;

verus! {

/// Key of an `f32` bit pattern under the IEEE 754 total order: bit
/// patterns compare as their keys. A sign-bit-clear pattern maps above
/// every sign-bit-set one, mirroring that every negative float (negative
/// NaNs included) orders below every non-negative one.
pub open spec fn rank_key(bits: u32) -> int {
    if bits >= 0x8000_0000 {
        0xFFFF_FFFF - bits
    } else {
        bits + 0x8000_0000
    }
}

/// Executable form of [`rank_key`].
pub fn total_order_key(bits: u32) -> (k: u32)
    ensures
        k == rank_key(bits),
{
    if bits >= 0x8000_0000u32 {
        0xFFFF_FFFFu32 - bits
    } else {
        bits + 0x8000_0000u32
    }
}

/// Neuron `a` sorts strictly before neuron `b` within one layer's
/// metric: its key is smaller, or equal with the smaller index.
/// This is a strict total order on the neuron indices of the layer.
pub open spec fn ranks_before(metric: Seq<u32>, a: int, b: int) -> bool {
    rank_key(metric[a]) < rank_key(metric[b]) || (rank_key(metric[a]) == rank_key(metric[b]) && a
        < b)
}

/// What a correct ranking of one layer looks like: `ranks` and `ranked`
/// are mutually inverse maps on `0 .. metric.len()` (so each is a
/// permutation), and `ranks` is monotone in the metric's total order.
pub open spec fn layer_ranking_ok(metric: Seq<u32>, ranks: Seq<u32>, ranked: Seq<u32>) -> bool {
    let n = metric.len() as int;
    &&& ranks.len() == n
    &&& ranked.len() == n
    &&& forall|i: int| 0 <= i < n ==> (#[trigger] ranks[i]) < n
    &&& forall|r: int| 0 <= r < n ==> (#[trigger] ranked[r]) < n
    &&& forall|i: int| 0 <= i < n ==> ranked[(#[trigger] ranks[i]) as int] as int == i
    &&& forall|r: int| 0 <= r < n ==> ranks[(#[trigger] ranked[r]) as int] as int == r
    &&& forall|a: int, b: int|
        0 <= a < n && 0 <= b < n && #[trigger] ranks_before(metric, a, b) ==> ranks[a] < ranks[b]
}

/// What the correct ranking of a whole `(num_layers, num_neurons)`
/// metric looks like: each layer independently correct.
pub open spec fn ranking_ok(
    metric: Seq<u32>,
    num_layers: int,
    num_neurons: int,
    ranks: Seq<u32>,
    ranked: Seq<u32>,
) -> bool {
    &&& ranks.len() == metric.len()
    &&& ranked.len() == metric.len()
    &&& forall|l: int|
        0 <= l < num_layers ==> layer_ranking_ok(
            metric.subrange(l * num_neurons, l * num_neurons + num_neurons),
            #[trigger] ranks.subrange(l * num_neurons, l * num_neurons + num_neurons),
            ranked.subrange(l * num_neurons, l * num_neurons + num_neurons),
        )
}

/// Ranking inverse law, stated for a layer: the ranks of a layer hit
/// every rank position `0 .. n` — together with the mutual-inverse
/// clauses of [`layer_ranking_ok`], `ranks` is a permutation of
/// `0 .. n` and `ranked_neurons` is its inverse.
pub proof fn lemma_layer_ranks_onto(metric: Seq<u32>, ranks: Seq<u32>, ranked: Seq<u32>, r: int)
    requires
        layer_ranking_ok(metric, ranks, ranked),
        0 <= r < metric.len(),
    ensures
        exists|i: int|
            0 <= i < metric.len() && (#[trigger] ranks[i]) as int == r,
{
    let i = ranked[r] as int;
    assert(0 <= i < metric.len() && ranks[i] as int == r);
}

/// Ranks one layer's metric. Returns `(ranks, ranked)` over local
/// neuron indices, correct in the sense of [`layer_ranking_ok`].
#[verifier::loop_isolation(false)]
fn rank_layer(metric: &Vec<u32>, base: usize, n: usize) -> (res: (Vec<u32>, Vec<u32>))
    requires
        base + n <= metric@.len(),
        n <= u32::MAX,
    ensures
        layer_ranking_ok(metric@.subrange(base as int, base as int + n as int), res.0@, res.1@),
{
    broadcast use group_seq_properties;

    let ml = metric.len();
    let ghost mslice = metric@.subrange(base as int, base as int + n as int);
    let ghost ident = Seq::new(n as nat, |i: int| i as usize);
    proof {
        assert(is_identity_seq(ident, n as int));
    }

    // Start from the identity permutation of neuron indices.
    let mut order: Vec<usize> = Vec::new();
    let mut i: usize = 0;
    while i < n
        invariant
            0 <= i <= n,
            order@.len() == i,
            forall|t: int| 0 <= t < i ==> (#[trigger] order@[t]) == t,
        decreases n - i,
    {
        order.push(i);
        i = i + 1;
    }
    proof {
        assert(order@ =~= ident);
    }

    // Insertion sort by the layer's total order.
    let mut k: usize = 0;
    while k < n
        invariant
            0 <= k <= n,
            order@.len() == n,
            forall|t: int| 0 <= t < n ==> (#[trigger] order@[t]) < n,
            order@.to_multiset() == ident.to_multiset(),
            forall|a: int, b: int|
                0 <= a < b < k ==> ranks_before(
                    mslice,
                    (#[trigger] order@[a]) as int,
                    (#[trigger] order@[b]) as int,
                ),
        decreases n - k,
    {
        let mut j: usize = k;
        let mut placed = false;
        while j > 0 && !placed
            invariant
                0 <= j <= k < n,
                order@.len() == n,
                forall|t: int| 0 <= t < n ==> (#[trigger] order@[t]) < n,
                order@.to_multiset() == ident.to_multiset(),
                placed ==> forall|a: int, b: int|
                    0 <= a < b <= k ==> ranks_before(
                        mslice,
                        (#[trigger] order@[a]) as int,
                        (#[trigger] order@[b]) as int,
                    ),
                !placed ==> forall|a: int, b: int|
                    0 <= a < b <= k && b != j ==> ranks_before(
                        mslice,
                        (#[trigger] order@[a]) as int,
                        (#[trigger] order@[b]) as int,
                    ),
                !placed ==> forall|b: int|
                    j < b <= k ==> ranks_before(
                        mslice,
                        order@[j as int] as int,
                        (#[trigger] order@[b]) as int,
                    ),
            decreases j, (if placed { 0int } else { 1int }),
        {
            let here = order[j];
            let prev = order[j - 1];
            let key_here = total_order_key(metric[base + here]);
            let key_prev = total_order_key(metric[base + prev]);
            proof {
                assert(mslice[here as int] == metric@[base + here as int]);
                assert(mslice[prev as int] == metric@[base + prev as int]);
            }
            let moves_down = key_here < key_prev || (key_here == key_prev && here < prev);
            if !moves_down {
                // `here` is in place: everything before stays before it.
                placed = true;
                proof {
                    lemma_order_distinct(order@, ident, n as int);
                    assert(order@[j as int] != order@[j - 1]);
                    assert(ranks_before(mslice, order@[j - 1] as int, order@[j as int] as int));
                    assert forall|a: int, b: int| 0 <= a < b <= k implies ranks_before(
                        mslice,
                        (order@[a]) as int,
                        (order@[b]) as int,
                    ) by {
                        if b == j {
                            if a < j - 1 {
                                assert(ranks_before(mslice, order@[a] as int, order@[j - 1] as int));
                            }
                        }
                    }
                }
            } else {
                // Swap the entry one step down.
                let ghost before_swap = order@;
                let here2 = here;
                order[j - 1] = here2;
                order[j] = prev;
                proof {
                    lemma_swap_multiset(before_swap, j - 1, j as int);
                    assert(order@ =~= before_swap.update(j - 1, before_swap[j as int]).update(
                        j as int,
                        before_swap[j - 1],
                    ));
                }
                j = j - 1;
            }
        }
        proof {
            if !placed {
                assert forall|a: int, b: int| 0 <= a < b <= k implies ranks_before(
                    mslice,
                    (order@[a]) as int,
                    (order@[b]) as int,
                ) by {}
            }
        }
        k = k + 1;
    }

    // Read the permutation off into the two rank tables.
    let mut ranks: Vec<u32> = vec_filled(n);
    let mut ranked: Vec<u32> = vec_filled(n);
    let mut r: usize = 0;
    while r < n
        invariant
            0 <= r <= n,
            order@.len() == n,
            ranks@.len() == n,
            ranked@.len() == n,
            forall|t: int| 0 <= t < n ==> (#[trigger] order@[t]) < n,
            order@.to_multiset() == ident.to_multiset(),
            forall|a: int, b: int|
                0 <= a < b < n ==> ranks_before(
                    mslice,
                    (#[trigger] order@[a]) as int,
                    (#[trigger] order@[b]) as int,
                ),
            forall|t: int| 0 <= t < r ==> (#[trigger] ranked@[t]) as int == order@[t] as int,
            forall|t: int| 0 <= t < r ==> (#[trigger] ranks@[order@[t] as int]) as int == t,
        decreases n - r,
    {
        let neuron = order[r];
        proof {
            lemma_order_distinct(order@, ident, n as int);
        }
        ranks[neuron] = r as u32;
        ranked[r] = neuron as u32;
        r = r + 1;
    }
    proof {
        lemma_order_distinct(order@, ident, n as int);
        assert forall|i: int| 0 <= i < n implies (#[trigger] ranks@[i]) < n && ranked@[(
        ranks@[i]) as int] as int == i by {
            lemma_order_onto(order@, ident, n as int, i);
            let t = choose|t: int| 0 <= t < n && (#[trigger] order@[t]) as int == i;
            assert(ranks@[i] as int == t);
        }
        assert forall|a: int, b: int|
            0 <= a < n && 0 <= b < n && #[trigger] ranks_before(mslice, a, b) implies ranks@[a]
            < ranks@[b] by {
            lemma_order_onto(order@, ident, n as int, a);
            lemma_order_onto(order@, ident, n as int, b);
            let ta = choose|t: int| 0 <= t < n && (#[trigger] order@[t]) as int == a;
            let tb = choose|t: int| 0 <= t < n && (#[trigger] order@[t]) as int == b;
            assert(ranks@[a] as int == ta && ranks@[b] as int == tb);
            if ta > tb {
                assert(ranks_before(mslice, order@[tb] as int, order@[ta] as int));
            } else if ta == tb {
                assert(a == b);
            }
        }
    }
    (ranks, ranked)
}

/// A vector of `n` zeros.
fn vec_filled(n: usize) -> (r: Vec<u32>)
    ensures
        r@.len() == n,
{
    let mut r: Vec<u32> = Vec::new();
    let mut i: usize = 0;
    while i < n
        invariant
            0 <= i <= n,
            r@.len() == i,
        decreases n - i,
    {
        r.push(0);
        i = i + 1;
    }
    r
}

/// The entries of the identity permutation on `0 .. n`.
pub open spec fn is_identity_seq(s: Seq<usize>, n: int) -> bool {
    s.len() == n && forall|t: int| 0 <= t < n ==> (#[trigger] s[t]) as int == t
}

/// Swapping two entries leaves a sequence's multiset unchanged.
proof fn lemma_swap_multiset(s: Seq<usize>, a: int, b: int)
    requires
        0 <= a < s.len(),
        0 <= b < s.len(),
    ensures
        s.update(a, s[b]).update(b, s[a]).to_multiset() == s.to_multiset(),
{
    broadcast use vstd::seq_lib::group_to_multiset_ensures;

    let s1 = s.update(a, s[b]);
    let s2 = s1.update(b, s[a]);
    if a == b {
        assert(s2 =~= s);
    } else {
        assert(s1[b] == s[b]);
        assert(s2.to_multiset() =~= s.to_multiset());
    }
}

/// A sequence with the identity's multiset has pairwise distinct entries.
proof fn lemma_order_distinct(order: Seq<usize>, ident: Seq<usize>, n: int)
    requires
        0 <= n <= usize::MAX,
        order.len() == n,
        is_identity_seq(ident, n),
        order.to_multiset() == ident.to_multiset(),
    ensures
        forall|a: int, b: int|
            0 <= a < b < n ==> (#[trigger] order[a]) != (#[trigger] order[b]),
{
    broadcast use vstd::seq_lib::group_to_multiset_ensures;

    assert(ident.no_duplicates());
    ident.lemma_multiset_has_no_duplicates();
    order.lemma_multiset_has_no_duplicates_conv();
    assert(order.no_duplicates());
}

/// A sequence with the identity's multiset covers every index below `n`.
proof fn lemma_order_onto(order: Seq<usize>, ident: Seq<usize>, n: int, v: int)
    requires
        0 <= v < n <= usize::MAX,
        order.len() == n,
        is_identity_seq(ident, n),
        order.to_multiset() == ident.to_multiset(),
    ensures
        exists|t: int| 0 <= t < n && (#[trigger] order[t]) as int == v,
{
    broadcast use vstd::seq_lib::group_to_multiset_ensures;

    assert(ident[v] as int == v);
    assert(ident[v] == v as usize);
    assert(ident.contains(v as usize));
    assert(ident.to_multiset().count(v as usize) > 0);
    assert(order.contains(v as usize));
    let t = choose|t: int| 0 <= t < order.len() && order[t] == v as usize;
    assert(0 <= t < n && order[t] as int == v);
}

/// Derives, for each layer of a `(num_layers, num_neurons)` metric of
/// `f32` bit patterns, the rank of every neuron and the neuron at every
/// rank, under the NaN-tolerant total order with index tie-break. All
/// arrays are flat and row-major.
#[verifier::loop_isolation(false)]
pub fn calculate_neuron_rankings(metric: &Vec<u32>, num_layers: usize, num_neurons: usize) -> (res:
    (Vec<u32>, Vec<u32>))
    requires
        metric@.len() == num_layers * num_neurons,
        num_neurons <= u32::MAX,
    ensures
        ranking_ok(metric@, num_layers as int, num_neurons as int, res.0@, res.1@),
{
    let ml = metric.len();
    let mut ranks: Vec<u32> = Vec::new();
    let mut ranked: Vec<u32> = Vec::new();
    let mut l: usize = 0;
    while l < num_layers
        invariant
            0 <= l <= num_layers,
            metric@.len() == num_layers * num_neurons,
            num_neurons <= u32::MAX,
            ranks@.len() == l * num_neurons,
            ranked@.len() == l * num_neurons,
            forall|q: int|
                0 <= q < l ==> layer_ranking_ok(
                    metric@.subrange(q * num_neurons, q * num_neurons + num_neurons),
                    #[trigger] ranks@.subrange(q * num_neurons, q * num_neurons + num_neurons),
                    ranked@.subrange(q * num_neurons, q * num_neurons + num_neurons),
                ),
        decreases num_layers - l,
    {
        proof {
            assert((l + 1) * num_neurons <= num_layers * num_neurons && l * num_neurons + num_neurons
                == (l + 1) * num_neurons) by (nonlinear_arith)
                requires
                    0 <= l < num_layers,
            ;
        }
        let base = l * num_neurons;
        let (mut layer_ranks, mut layer_ranked) = rank_layer(metric, base, num_neurons);
        let ghost old_ranks = ranks@;
        let ghost old_ranked = ranked@;
        let ghost lr = layer_ranks@;
        let ghost lkd = layer_ranked@;
        ranks.append(&mut layer_ranks);
        ranked.append(&mut layer_ranked);
        proof {
            assert(ranks@.subrange(l * num_neurons as int, l * num_neurons + num_neurons) =~= lr);
            assert(ranked@.subrange(l * num_neurons as int, l * num_neurons + num_neurons)
                =~= lkd);
            assert forall|q: int| 0 <= q < l implies layer_ranking_ok(
                metric@.subrange(q * num_neurons, q * num_neurons + num_neurons),
                #[trigger] ranks@.subrange(q * num_neurons, q * num_neurons + num_neurons),
                ranked@.subrange(q * num_neurons, q * num_neurons + num_neurons),
            ) by {
                assert(0 <= q * num_neurons && q * num_neurons + num_neurons <= l * num_neurons)
                    by (nonlinear_arith)
                    requires
                        0 <= q < l,
                ;
                assert(ranks@.subrange(q * num_neurons, q * num_neurons + num_neurons)
                    =~= old_ranks.subrange(q * num_neurons, q * num_neurons + num_neurons));
                assert(ranked@.subrange(q * num_neurons, q * num_neurons + num_neurons)
                    =~= old_ranked.subrange(q * num_neurons, q * num_neurons + num_neurons));
            }
        }
        l = l + 1;
    }
    (ranks, ranked)
}

} // verus!
