//! Termination measures for worklist traversals of arena trees.
//!
//! A worklist that pops a node and pushes its children (whose arena
//! indices are strictly increasing and larger than the parent's) gets
//! strictly lighter under `weight`: each entry weighs `2^(n - index)`,
//! and a node outweighs all its children together.

use vstd::prelude::*;

verus! {

/// Two to the power `e`.
pub open spec fn pow2(e: nat) -> nat
    decreases e,
{
    if e == 0 {
        1
    } else {
        2 * pow2((e - 1) as nat)
    }
}

pub proof fn lemma_pow2_monotone(a: nat, b: nat)
    requires
        a <= b,
    ensures
        1 <= pow2(a) <= pow2(b),
    decreases b,
{
    if b == 0 {
    } else if a == b {
        lemma_pow2_monotone((b - 1) as nat, (b - 1) as nat);
    } else {
        lemma_pow2_monotone(a, (b - 1) as nat);
    }
}

/// The weight of a worklist whose entries sit at arena index `key(x)`
/// in a tree of `n` nodes.
pub open spec fn weight<A>(n: nat, xs: Seq<A>, key: spec_fn(A) -> usize) -> nat
    decreases xs.len(),
{
    if xs.len() == 0 {
        0
    } else {
        weight(n, xs.drop_last(), key) + pow2((n - key(xs.last())) as nat)
    }
}

pub proof fn lemma_weight_concat<A>(n: nat, a: Seq<A>, b: Seq<A>, key: spec_fn(A) -> usize)
    ensures
        weight(n, a + b, key) == weight(n, a, key) + weight(n, b, key),
    decreases b.len(),
{
    if b.len() == 0 {
        assert(a + b =~= a);
    } else {
        assert((a + b).drop_last() =~= a + b.drop_last());
        assert((a + b).last() == b.last());
        lemma_weight_concat(n, a, b.drop_last(), key);
    }
}

/// Keys strictly increasing, all above `lo` and at most `n`.
pub open spec fn above(n: nat, lo: usize, xs: Seq<usize>) -> bool {
    &&& forall|k: int| 0 <= k < xs.len() ==> lo < #[trigger] xs[k] <= n
    &&& forall|k1: int, k2: int| 0 <= k1 < k2 < xs.len() ==> #[trigger] xs[k1] < #[trigger] xs[k2]
}

proof fn lemma_above_bound<A>(n: nat, lo: usize, cs: Seq<A>, key: spec_fn(A) -> usize)
    requires
        cs.len() > 0,
        above(n, lo, cs.map_values(key)),
    ensures
        weight(n, cs, key) + pow2((n - key(cs.last())) as nat) <= pow2((n - lo) as nat),
    decreases cs.len(),
{
    let ks = cs.map_values(key);
    let l = key(cs.last());
    assert(ks[cs.len() - 1] == l);
    lemma_pow2_monotone((n - l + 1) as nat, (n - lo) as nat);
    assert(pow2((n - l + 1) as nat) == 2 * pow2((n - l) as nat));
    if cs.len() > 1 {
        let rest = cs.drop_last();
        let l2 = key(rest.last());
        assert(rest.map_values(key) =~= ks.drop_last());
        assert(ks[cs.len() - 2] == l2);
        lemma_above_bound(n, lo, rest, key);
        lemma_pow2_monotone((n - l + 1) as nat, (n - l2) as nat);
    } else {
        assert(cs.drop_last() =~= Seq::<A>::empty());
    }
}

/// Popping `x` and pushing children above it lightens the worklist.
pub proof fn lemma_pop_push<A>(n: nat, rest: Seq<A>, x: A, cs: Seq<A>, key: spec_fn(A) -> usize)
    requires
        above(n, key(x), cs.map_values(key)),
    ensures
        weight(n, rest + cs, key) < weight(n, rest.push(x), key),
{
    lemma_weight_concat(n, rest, cs, key);
    assert(rest.push(x).drop_last() =~= rest);
    lemma_pow2_monotone(0, (n - key(x)) as nat);
    if cs.len() > 0 {
        lemma_above_bound(n, key(x), cs, key);
        lemma_pow2_monotone(0, (n - key(cs.last())) as nat);
    } else {
        assert(rest + cs =~= rest);
    }
}

} // verus!
