//! Zhang–Shasha tree edit mapping.
//!
//! Textbook implementation (keyroots + forest-distance DP) over plain
//! value + children trees, standalone from the arena [`crate::Tree`] so
//! it can be tested against toy trees and reused on residue forests.
//!
//! Zhang & Shasha, "Simple fast algorithms for the editing distance
//! between trees and related problems", SIAM J. Comput. 18(6), 1989.

use vstd::prelude::*;

use crate::walk::{lemma_pow2_monotone, pow2};

verus! {

/// A tree for Zhang–Shasha: a value and ordered children.
pub struct ZsTree<T> {
    pub value: T,
    pub children: Vec<ZsTree<T>>,
}

/// The tree's values in post-order (children left to right, then the
/// node itself).
pub open spec fn zs_values<T>(t: ZsTree<T>) -> Seq<T>
    decreases t,
{
    forest_values(t.children@) + seq![t.value]
}

/// The post-order values of a forest, tree by tree.
pub open spec fn forest_values<T>(ts: Seq<ZsTree<T>>) -> Seq<T>
    decreases ts,
{
    if ts.len() == 0 {
        seq![]
    } else {
        forest_values(ts.drop_last()) + zs_values(ts.last())
    }
}

/// The 1-based post-order position of each node's leftmost leaf, `t`
/// laid out after `base` earlier nodes. A subtree's post-order run
/// starts at its leftmost leaf, so the root's entry is `base + 1`.
pub open spec fn zs_lefts<T>(t: ZsTree<T>, base: int) -> Seq<int>
    decreases t,
{
    forest_lefts(t.children@, base) + seq![base + 1]
}

/// The leftmost-leaf positions of a forest laid out after `base` nodes,
/// tree by tree.
pub open spec fn forest_lefts<T>(ts: Seq<ZsTree<T>>, base: int) -> Seq<int>
    decreases ts,
{
    if ts.len() == 0 {
        seq![]
    } else {
        forest_lefts(ts.drop_last(), base) + zs_lefts(ts.last(), base + forest_values(ts.drop_last()).len())
    }
}

/// In `t`'s post-order (0-based positions), `a` is a proper ancestor of
/// `b`: `b` lies in the run from `a`'s leftmost leaf up to `a`.
pub open spec fn zs_is_anc<T>(t: ZsTree<T>, a: int, b: int) -> bool {
    zs_lefts(t, 0)[a] - 1 <= b < a
}

/// The node count of a tree.
pub open spec fn zs_size<T>(t: ZsTree<T>) -> nat {
    zs_values(t).len()
}

/// Whether `relabel` may answer `Some` cost for the pair: the pair is
/// one it permits matching.
pub open spec fn permitted<T, F: Fn(T, T) -> Option<u32>>(relabel: F, a: T, b: T) -> bool {
    exists|c: u32| call_ensures(relabel, (a, b), Some(c))
}

/// `relabel` prices each pair of the two value lists one way: asking
/// twice gives the same answer.
pub open spec fn prices_consistently<T, F: Fn(T, T) -> Option<u32>>(relabel: F, src: Seq<T>, dst: Seq<T>) -> bool {
    forall|a: T, b: T, r1: Option<u32>, r2: Option<u32>|
        src.contains(a) && dst.contains(b) && call_ensures(relabel, (a, b), r1) && call_ensures(relabel, (a, b), r2)
            ==> r1 == r2
}

/// The sum of a list of prices.
pub open spec fn price_total(costs: Seq<u32>) -> int
    decreases costs.len(),
{
    if costs.len() == 0 {
        0
    } else {
        price_total(costs.drop_last()) + costs.last()
    }
}

/// Prices add up across a concatenation.
proof fn lemma_price_total_concat(a: Seq<u32>, b: Seq<u32>)
    ensures
        price_total(a + b) == price_total(a) + price_total(b),
    decreases b.len(),
{
    if b.len() == 0 {
        assert(a + b =~= a);
    } else {
        lemma_price_total_concat(a, b.drop_last());
        assert((a + b).drop_last() =~= a + b.drop_last());
    }
}

/// A sum of prices is never negative.
proof fn lemma_price_total_nonneg(costs: Seq<u32>)
    ensures
        price_total(costs) >= 0,
    decreases costs.len(),
{
    if costs.len() > 0 {
        lemma_price_total_nonneg(costs.drop_last());
    }
}

/// The dst partner (1-based) of src position `i` among the 1-based
/// position pairs `mp`, or 0 when no pair holds `i`.
spec fn partner_src(mp: Seq<(int, int)>, i: int) -> int
    decreases mp.len(),
{
    if mp.len() == 0 {
        0
    } else if mp.last().0 == i {
        mp.last().1
    } else {
        partner_src(mp.drop_last(), i)
    }
}

/// The src partner (1-based) of dst position `j` among `mp`, or 0.
spec fn partner_dst(mp: Seq<(int, int)>, j: int) -> int
    decreases mp.len(),
{
    if mp.len() == 0 {
        0
    } else if mp.last().1 == j {
        mp.last().0
    } else {
        partner_dst(mp.drop_last(), j)
    }
}

/// 1-based position pairs inside an `n` by `m` grid, ordered alike on
/// both sides: no position is used twice and no two pairs cross.
spec fn pairs_ordered(mp: Seq<(int, int)>, n: int, m: int) -> bool {
    &&& forall|k: int| 0 <= k < mp.len() ==> 1 <= (#[trigger] mp[k]).0 <= n && 1 <= mp[k].1 <= m
    &&& forall|k1: int, k2: int|
        0 <= k1 < mp.len() && 0 <= k2 < mp.len() && k1 != k2 ==> ((#[trigger] mp[k1]).0 < (#[trigger] mp[k2]).0
            && mp[k1].1 < mp[k2].1) || (mp[k2].0 < mp[k1].0 && mp[k2].1 < mp[k1].1)
}

/// A src position's partner is the dst side of a pair holding it; no
/// pair holds a position without a partner.
proof fn lemma_partner_src(mp: Seq<(int, int)>, i: int) -> (k: int)
    requires
        forall|k: int| 0 <= k < mp.len() ==> 1 <= (#[trigger] mp[k]).1,
    ensures
        partner_src(mp, i) == 0 ==> forall|k2: int| 0 <= k2 < mp.len() ==> (#[trigger] mp[k2]).0 != i,
        partner_src(mp, i) != 0 ==> 0 <= k < mp.len() && mp[k] == (i, partner_src(mp, i)),
    decreases mp.len(),
{
    if mp.len() == 0 {
        0
    } else if mp.last().0 == i {
        (mp.len() - 1) as int
    } else {
        let rest = mp.drop_last();
        assert forall|k: int| 0 <= k < rest.len() implies 1 <= (#[trigger] rest[k]).1 by {
            assert(rest[k] == mp[k]);
        }
        let k = lemma_partner_src(rest, i);
        if partner_src(mp, i) == 0 {
            assert forall|k2: int| 0 <= k2 < mp.len() implies (#[trigger] mp[k2]).0 != i by {
                if k2 < rest.len() {
                    assert(rest[k2] == mp[k2]);
                }
            }
        } else {
            assert(rest[k] == mp[k]);
        }
        k
    }
}

/// A dst position's partner is the src side of a pair holding it.
proof fn lemma_partner_dst(mp: Seq<(int, int)>, j: int) -> (k: int)
    requires
        forall|k: int| 0 <= k < mp.len() ==> 1 <= (#[trigger] mp[k]).0,
    ensures
        partner_dst(mp, j) == 0 ==> forall|k2: int| 0 <= k2 < mp.len() ==> (#[trigger] mp[k2]).1 != j,
        partner_dst(mp, j) != 0 ==> 0 <= k < mp.len() && mp[k] == (partner_dst(mp, j), j),
    decreases mp.len(),
{
    if mp.len() == 0 {
        0
    } else if mp.last().1 == j {
        (mp.len() - 1) as int
    } else {
        let rest = mp.drop_last();
        assert forall|k: int| 0 <= k < rest.len() implies 1 <= (#[trigger] rest[k]).0 by {
            assert(rest[k] == mp[k]);
        }
        let k = lemma_partner_dst(rest, j);
        if partner_dst(mp, j) == 0 {
            assert forall|k2: int| 0 <= k2 < mp.len() implies (#[trigger] mp[k2]).1 != j by {
                if k2 < rest.len() {
                    assert(rest[k2] == mp[k2]);
                }
            }
        } else {
            assert(rest[k] == mp[k]);
        }
        k
    }
}

/// Dropping the last pair keeps the rest ordered.
proof fn lemma_pairs_ordered_prefix(mp: Seq<(int, int)>, n: int, m: int)
    requires
        pairs_ordered(mp, n, m),
        mp.len() > 0,
    ensures
        pairs_ordered(mp.drop_last(), n, m),
{
    let rest = mp.drop_last();
    assert forall|k: int| 0 <= k < rest.len() implies 1 <= (#[trigger] rest[k]).0 <= n && 1 <= rest[k].1 <= m by {
        assert(rest[k] == mp[k]);
    }
    assert forall|k1: int, k2: int|
        0 <= k1 < rest.len() && 0 <= k2 < rest.len() && k1 != k2 implies ((#[trigger] rest[k1]).0
        < (#[trigger] rest[k2]).0 && rest[k1].1 < rest[k2].1) || (rest[k2].0 < rest[k1].0 && rest[k2].1
        < rest[k1].1) by {
        assert(rest[k1] == mp[k1]);
        assert(rest[k2] == mp[k2]);
    }
}

/// The smallest of three integers.
pub open spec fn min_of3(a: int, b: int, c: int) -> int {
    if a <= b && a <= c {
        a
    } else if b <= c {
        b
    } else {
        c
    }
}

/// The largest combined node count the DP handles: every finite
/// distance stays far below [`INF`], so a forbidden relabel can never be
/// the cheapest step.
pub const SIZE_LIMIT: usize = 0x1000_0000;

/// Infinite cost: forbids a relabel without risking overflow in
/// saturating arithmetic.
pub const INF: u32 = 0x7fff_ffff;

/// `at` gives each mapped pair's post-order positions: in range, holding
/// the pair's values, and ordered alike on both sides — so no position
/// is used twice, and the mapping never crosses.
pub open spec fn positions_of<T>(at: Seq<(int, int)>, pairs: Seq<(T, T)>, src: Seq<T>, dst: Seq<T>) -> bool {
    &&& at.len() == pairs.len()
    &&& forall|k: int|
        0 <= k < at.len() ==> 0 <= (#[trigger] at[k]).0 < src.len() && 0 <= at[k].1 < dst.len() && pairs[k] == (
        src[at[k].0],
        dst[at[k].1],
    )
    &&& forall|k1: int, k2: int|
        0 <= k1 < k2 < at.len() ==> ((#[trigger] at[k1]).0 < (#[trigger] at[k2]).0 && at[k1].1 < at[k2].1) || (
        at[k2].0 < at[k1].0 && at[k2].1 < at[k1].1)
}

/// Mapped positions agree on ancestry: one pair's src node is a proper
/// ancestor of another's exactly when its dst node is.
pub open spec fn ancestry_agrees<T>(at: Seq<(int, int)>, src: ZsTree<T>, dst: ZsTree<T>) -> bool {
    forall|k1: int, k2: int|
        0 <= k1 < at.len() && 0 <= k2 < at.len() ==> (zs_is_anc(src, (#[trigger] at[k1]).0, (#[trigger] at[k2]).0)
            <==> zs_is_anc(dst, at[k1].1, at[k2].1))
}

/// Computes the optimal edit mapping between two trees.
///
/// `relabel` prices matching a src value to a dst value: `Some(0)` for
/// identical, a positive cost for a relabel, `None` for pairs that must
/// never match (cross-kind). Insertions and deletions cost 1. Returns
/// the matched value pairs; unmatched src values are deletions,
/// unmatched dst values insertions.
pub fn mapping<T: Copy, F: Fn(T, T) -> Option<u32>>(src: &ZsTree<T>, dst: &ZsTree<T>, relabel: F) -> (r: Vec<(T, T)>)
    requires
        zs_size(*src) + zs_size(*dst) <= SIZE_LIMIT,
        forall|a: T, b: T| zs_values(*src).contains(a) && zs_values(*dst).contains(b) ==> call_requires(relabel, (a, b)),
        prices_consistently(relabel, zs_values(*src), zs_values(*dst)),
    ensures
        forall|k: int| 0 <= k < r@.len() ==> zs_values(*src).contains((#[trigger] r@[k]).0) && zs_values(*dst).contains(r@[k].1),
        forall|k: int| 0 <= k < r@.len() ==> permitted(relabel, (#[trigger] r@[k]).0, r@[k].1),
        exists|at: Seq<(int, int)>|
            #[trigger] positions_of(at, r@, zs_values(*src), zs_values(*dst)) && ancestry_agrees(at, *src, *dst),
        *src == *dst && (forall|a: T| zs_values(*src).contains(a) ==> call_ensures(relabel, (a, a), Some(0u32)))
            ==> r@.len() >= zs_size(*src),
        exists|costs: Seq<u32>|
            #![trigger price_total(costs)]
            costs.len() == r@.len() && (forall|k: int|
                0 <= k < costs.len() ==> call_ensures(relabel, (r@[k].0, r@[k].1), Some(#[trigger] costs[k])))
                && forall|at: Seq<(int, int)>, pairs: Seq<(T, T)>, others: Seq<u32>|
                #![trigger positions_of(at, pairs, zs_values(*src), zs_values(*dst)), price_total(others)]
                positions_of(at, pairs, zs_values(*src), zs_values(*dst)) && ancestry_agrees(at, *src, *dst)
                    && others.len() == pairs.len() && (forall|k: int|
                    0 <= k < others.len() ==> call_ensures(relabel, (pairs[k].0, pairs[k].1), Some(#[trigger] others[k])))
                    ==> price_total(costs) + (zs_size(*src) - r@.len()) + (zs_size(*dst) - r@.len()) <= price_total(others)
                    + (zs_size(*src) - pairs.len()) + (zs_size(*dst) - pairs.len()),
{
    let r = mapping_with_cost(src, dst, relabel);
    proof {
        let costs = choose|costs: Seq<u32>|
            costs.len() == r.0@.len() && (forall|k: int|
                0 <= k < costs.len() ==> call_ensures(relabel, (r.0@[k].0, r.0@[k].1), Some(#[trigger] costs[k])))
                && #[trigger] price_total(costs) + (zs_size(*src) - r.0@.len()) + (zs_size(*dst) - r.0@.len()) == r.1;
        assert(price_total(costs) + (zs_size(*src) - r.0@.len()) + (zs_size(*dst) - r.0@.len()) == r.1);
    }
    r.0
}

/// [`mapping`] plus the edit distance the DP computed. The mapping's
/// implied cost — the prices of its pairs plus one for every unmatched
/// node on either side — is exactly that distance, and no mapping that
/// keeps order and ancestry on both sides has a lower implied cost.
pub fn mapping_with_cost<T: Copy, F: Fn(T, T) -> Option<u32>>(src: &ZsTree<T>, dst: &ZsTree<T>, relabel: F) -> (r: (Vec<(T, T)>, u32))
    requires
        zs_size(*src) + zs_size(*dst) <= SIZE_LIMIT,
        forall|a: T, b: T| zs_values(*src).contains(a) && zs_values(*dst).contains(b) ==> call_requires(relabel, (a, b)),
        prices_consistently(relabel, zs_values(*src), zs_values(*dst)),
    ensures
        forall|k: int| 0 <= k < r.0@.len() ==> zs_values(*src).contains((#[trigger] r.0@[k]).0) && zs_values(*dst).contains(r.0@[k].1),
        forall|k: int| 0 <= k < r.0@.len() ==> permitted(relabel, (#[trigger] r.0@[k]).0, r.0@[k].1),
        r.1 <= zs_size(*src) + zs_size(*dst),
        exists|at: Seq<(int, int)>|
            #[trigger] positions_of(at, r.0@, zs_values(*src), zs_values(*dst)) && ancestry_agrees(at, *src, *dst),
        exists|costs: Seq<u32>|
            costs.len() == r.0@.len() && (forall|k: int|
                0 <= k < costs.len() ==> call_ensures(relabel, (r.0@[k].0, r.0@[k].1), Some(#[trigger] costs[k])))
                && #[trigger] price_total(costs) + (zs_size(*src) - r.0@.len()) + (zs_size(*dst) - r.0@.len()) == r.1,
        *src == *dst && (forall|a: T| zs_values(*src).contains(a) ==> call_ensures(relabel, (a, a), Some(0u32)))
            ==> r.1 == 0 && r.0@.len() >= zs_size(*src),
        forall|costs: Seq<u32>|
            #![trigger price_total(costs)]
            zs_size(*src) == zs_size(*dst) && zs_lefts(*src, 0) == zs_lefts(*dst, 0) && costs.len() == zs_size(*src)
                && (forall|k: int|
                0 <= k < costs.len() ==> call_ensures(relabel, (zs_values(*src)[k], zs_values(*dst)[k]), Some(#[trigger] costs[k])))
                ==> r.1 <= price_total(costs),
        forall|at: Seq<(int, int)>, pairs: Seq<(T, T)>, costs: Seq<u32>|
            #![trigger positions_of(at, pairs, zs_values(*src), zs_values(*dst)), price_total(costs)]
            positions_of(at, pairs, zs_values(*src), zs_values(*dst)) && ancestry_agrees(at, *src, *dst)
                && costs.len() == pairs.len() && (forall|k: int|
                0 <= k < costs.len() ==> call_ensures(relabel, (pairs[k].0, pairs[k].1), Some(#[trigger] costs[k])))
                ==> r.1 <= price_total(costs) + (zs_size(*src) - pairs.len()) + (zs_size(*dst) - pairs.len()),
{
    let src_flat = Flat::build(src);
    let dst_flat = Flat::build(dst);
    let solver = Solver { src: src_flat, dst: dst_flat, relabel };
    proof {
        if *src == *dst && (forall|a: T| zs_values(*src).contains(a) ==> call_ensures(relabel, (a, a), Some(0u32))) {
            assert(solver.src.l@ =~= solver.dst.l@);
            assert forall|d: int| 1 <= d <= solver.n() implies #[trigger] solver.cost_at(d, d) == 0 by {
                let a = solver.src.values@[d - 1];
                assert(solver.src.values@.contains(a));
                assert(solver.dst.values@[d - 1] == a);
                assert(call_ensures(relabel, (a, a), Some(0u32)));
                let c = choose|c: u32| call_ensures(solver.relabel, (a, a), Some(c));
                assert(Some(c) == Some(0u32));
            }
            assert(solver.identical());
        }
    }
    let r = solver.solve();
    proof {
        assert forall|at: Seq<(int, int)>, pairs: Seq<(T, T)>, costs: Seq<u32>|
            #![trigger positions_of(at, pairs, zs_values(*src), zs_values(*dst)), price_total(costs)]
            positions_of(at, pairs, zs_values(*src), zs_values(*dst)) && ancestry_agrees(at, *src, *dst)
                && costs.len() == pairs.len() && (forall|k: int|
                0 <= k < costs.len() ==> call_ensures(relabel, (pairs[k].0, pairs[k].1), Some(#[trigger] costs[k])))
            implies r.1 <= price_total(costs) + (zs_size(*src) - pairs.len()) + (zs_size(*dst) - pairs.len()) by {
            let mp = Seq::new(at.len(), |k: int| (at[k].0 + 1, at[k].1 + 1));
            assert forall|k: int| 0 <= k < mp.len() implies 1 <= (#[trigger] mp[k]).0 <= solver.n() && 1 <= mp[k].1
                <= solver.m() by {
                assert(mp[k] == (at[k].0 + 1, at[k].1 + 1));
            }
            assert forall|k1: int, k2: int|
                0 <= k1 < mp.len() && 0 <= k2 < mp.len() && k1 != k2 implies ((#[trigger] mp[k1]).0
                < (#[trigger] mp[k2]).0 && mp[k1].1 < mp[k2].1) || (mp[k2].0 < mp[k1].0 && mp[k2].1 < mp[k1].1) by {
                if k1 < k2 {
                    assert(((at[k1]).0 < (at[k2]).0 && at[k1].1 < at[k2].1) || (at[k2].0 < at[k1].0 && at[k2].1
                        < at[k1].1));
                } else {
                    assert(((at[k2]).0 < (at[k1]).0 && at[k2].1 < at[k1].1) || (at[k1].0 < at[k2].0 && at[k1].1
                        < at[k2].1));
                }
            }
            assert(pairs_ordered(mp, solver.n(), solver.m()));
            assert forall|k1: int, k2: int| 0 <= k1 < mp.len() && 0 <= k2 < mp.len() implies (flat_anc(
                solver.src.l@,
                (#[trigger] mp[k1]).0,
                (#[trigger] mp[k2]).0,
            ) <==> flat_anc(solver.dst.l@, mp[k1].1, mp[k2].1)) by {
                assert(zs_is_anc(*src, at[k1].0, at[k2].0) <==> zs_is_anc(*dst, at[k1].1, at[k2].1));
                assert(solver.src.l@[at[k1].0] == zs_lefts(*src, 0)[at[k1].0]);
                assert(solver.dst.l@[at[k1].1] == zs_lefts(*dst, 0)[at[k1].1]);
            }
            assert(solver.pairs_agree(mp));
            solver.lemma_sums_count(mp);
            assert forall|k: int| 0 <= k < mp.len() implies call_ensures(
                solver.relabel,
                (solver.src.values@[mp[k].0 - 1], solver.dst.values@[mp[k].1 - 1]),
                Some(#[trigger] costs[k]),
            ) by {
                assert(mp[k] == (at[k].0 + 1, at[k].1 + 1));
                assert(pairs[k] == (zs_values(*src)[at[k].0], zs_values(*dst)[at[k].1]));
            }
            solver.lemma_pair_prices(mp, costs);
        }
        assert forall|costs: Seq<u32>|
            #![trigger price_total(costs)]
            zs_size(*src) == zs_size(*dst) && zs_lefts(*src, 0) == zs_lefts(*dst, 0) && costs.len() == zs_size(*src)
                && (forall|k: int|
                0 <= k < costs.len() ==> call_ensures(relabel, (zs_values(*src)[k], zs_values(*dst)[k]), Some(#[trigger] costs[k])))
            implies r.1 <= price_total(costs) by {
            assert(solver.src.l@ =~= solver.dst.l@);
            assert(solver.same_shape());
            solver.lemma_diag_prices(solver.n(), costs);
            assert(costs.subrange(0, solver.n()) =~= costs);
        }
        if *src == *dst && (forall|a: T| zs_values(*src).contains(a) ==> call_ensures(relabel, (a, a), Some(0u32))) {
            let costs = choose|costs: Seq<u32>|
                costs.len() == r.0@.len() && (forall|k: int|
                    0 <= k < costs.len() ==> call_ensures(solver.relabel, (r.0@[k].0, r.0@[k].1), Some(#[trigger] costs[k])))
                    && #[trigger] price_total(costs) + (solver.n() - r.0@.len()) + (solver.m() - r.0@.len()) == r.1;
            lemma_price_total_nonneg(costs);
            assert(solver.n() == zs_size(*src));
        }
        let spots = choose|spots: Seq<(int, int)>|
            #[trigger] solver.spots_ok(spots, r.0@) && pairwise_apart(spots) && solver.family_ok(
                spots,
                Seq::<(usize, usize)>::empty(),
            );
        let at = Seq::new(spots.len(), |k: int| (spots[k].0 - 1, spots[k].1 - 1));
        assert forall|k1: int, k2: int| 0 <= k1 < k2 < at.len() implies ((#[trigger] at[k1]).0 < (#[trigger] at[k2]).0
            && at[k1].1 < at[k2].1) || (at[k2].0 < at[k1].0 && at[k2].1 < at[k1].1) by {
            assert(apart(spot_box(spots[k1]), spot_box(spots[k2])));
        }
        assert(positions_of(at, r.0@, zs_values(*src), zs_values(*dst)));
        assert forall|k1: int, k2: int| 0 <= k1 < at.len() && 0 <= k2 < at.len() implies (zs_is_anc(
            *src,
            (#[trigger] at[k1]).0,
            (#[trigger] at[k2]).0,
        ) <==> zs_is_anc(*dst, at[k1].1, at[k2].1)) by {
            assert(flat_anc(solver.src.l@, spots[k1].0, spots[k2].0) <==> flat_anc(
                solver.dst.l@,
                spots[k1].1,
                spots[k2].1,
            ));
            assert(solver.src.l@[spots[k1].0 - 1] == zs_lefts(*src, 0)[at[k1].0]);
            assert(solver.dst.l@[spots[k1].1 - 1] == zs_lefts(*dst, 0)[at[k1].1]);
        }
    }
    r
}

/// A box of post-order positions (1-based): src range `[.0, .1]`, dst
/// range `[.2, .3]`.
spec fn box_before(a: (int, int, int, int), b: (int, int, int, int)) -> bool {
    a.1 < b.0 && a.3 < b.2
}

/// Two boxes lie strictly before one another on both sides, in the same
/// direction.
spec fn apart(a: (int, int, int, int), b: (int, int, int, int)) -> bool {
    box_before(a, b) || box_before(b, a)
}

spec fn spot_box(p: (int, int)) -> (int, int, int, int) {
    (p.0, p.0, p.1, p.1)
}

spec fn within(a: (int, int, int, int), r: (int, int, int, int)) -> bool {
    r.0 <= a.0 && a.1 <= r.1 && r.2 <= a.2 && a.3 <= r.3
}

spec fn pairwise_apart(spots: Seq<(int, int)>) -> bool {
    forall|k1: int, k2: int|
        0 <= k1 < spots.len() && 0 <= k2 < spots.len() && k1 != k2 ==> apart(
            spot_box(#[trigger] spots[k1]),
            spot_box(#[trigger] spots[k2]),
        )
}

/// A box inside `r` is apart from whatever `r` is apart from.
proof fn lemma_within_apart(a: (int, int, int, int), r: (int, int, int, int), b: (int, int, int, int))
    requires
        within(a, r),
        apart(r, b),
    ensures
        apart(a, b),
{
}

/// In a flattening with leftmost-leaf table `l`, 1-based position `a`
/// is a proper ancestor of position `b`.
spec fn flat_anc(l: Seq<usize>, a: int, b: int) -> bool {
    l[a - 1] <= b < a
}

/// Seen from outside a subtree rooted at `i`, a node is an ancestor of
/// one inside it exactly when it is an ancestor of `i`.
proof fn lemma_anc_from_outside(l: Seq<usize>, p: int, i: int, q: int)
    requires
        laminar(l),
        1 <= p <= l.len(),
        1 <= i <= l.len(),
        l[i - 1] <= q <= i,
        p < l[i - 1] || i < p,
    ensures
        flat_anc(l, p, q) <==> flat_anc(l, p, i),
{
    if flat_anc(l, p, i) {
        assert(l[p - 1] <= l[i - 1]);
    }
}

/// Leftmost-leaf indices of a post-order flattening: every node's
/// leftmost leaf (1-based) is at most its own index, and every node in
/// the span from its leftmost leaf to itself (its subtree) has a
/// leftmost leaf inside that span.
pub open spec fn laminar(l: Seq<usize>) -> bool {
    &&& forall|a: int| 0 <= a < l.len() ==> 1 <= #[trigger] l[a] <= a + 1
    &&& forall|a: int, b: int|
        #![trigger l[a], l[b]]
        0 <= a < l.len() && l[a] - 1 <= b <= a ==> l[a] <= l[b]
}

/// Position `k` (1-based) is a keyroot of a flattening with
/// leftmost-leaf table `l`: no later node shares its leftmost leaf.
spec fn is_keyroot(l: Seq<usize>, k: int) -> bool {
    &&& 1 <= k <= l.len()
    &&& forall|k2: int| k < k2 <= l.len() ==> #[trigger] l[k2 - 1] != l[k - 1]
}

/// The keyroot sharing `d`'s leftmost leaf: the last node with it.
spec fn root_of(l: Seq<usize>, d: int) -> int {
    choose|k: int| d <= k && is_keyroot(l, k) && l[k - 1] == l[d - 1]
}

/// Some keyroot from `d` on shares `d`'s leftmost leaf, given that no
/// node after `k` does.
proof fn lemma_last_sharing(l: Seq<usize>, d: int, k: int)
    requires
        1 <= d <= k <= l.len(),
        forall|k2: int| k < k2 <= l.len() ==> #[trigger] l[k2 - 1] != l[d - 1],
    ensures
        exists|r: int| d <= r && is_keyroot(l, r) && l[r - 1] == l[d - 1],
    decreases k - d,
{
    if l[k - 1] == l[d - 1] {
        assert(is_keyroot(l, k));
    } else {
        lemma_last_sharing(l, d, k - 1);
    }
}

proof fn lemma_root_of(l: Seq<usize>, d: int)
    requires
        1 <= d <= l.len(),
    ensures
        d <= root_of(l, d),
        is_keyroot(l, root_of(l, d)),
        l[root_of(l, d) - 1] == l[d - 1],
{
    lemma_last_sharing(l, d, l.len() as int);
}

/// Two keyroots with one leftmost leaf are the same node.
proof fn lemma_keyroot_unique(l: Seq<usize>, k1: int, k2: int)
    requires
        is_keyroot(l, k1),
        is_keyroot(l, k2),
        l[k1 - 1] == l[k2 - 1],
    ensures
        k1 == k2,
{
    if k1 < k2 {
        assert(l[k2 - 1] != l[k1 - 1]);
    } else if k2 < k1 {
        assert(l[k1 - 1] != l[k2 - 1]);
    }
}

/// A node inside `d`'s subtree with another leftmost leaf belongs to an
/// earlier keyroot.
proof fn lemma_root_earlier(l: Seq<usize>, d: int, d2: int)
    requires
        laminar(l),
        1 <= d <= l.len(),
        l[d - 1] <= d2 <= d,
        l[d2 - 1] != l[d - 1],
    ensures
        root_of(l, d2) < root_of(l, d),
{
    lemma_root_of(l, d);
    lemma_root_of(l, d2);
    let k2 = root_of(l, d2);
    let k = root_of(l, d);
    assert(l[d - 1] <= l[d2 - 1]);
    if k2 > d {
        assert(l[k2 - 1] <= l[d - 1]);
    }
    if k2 == k {
        assert(l[k2 - 1] == l[k - 1]);
    }
}

/// A tree flattened to 1-based post-order arrays: `values[i-1]` is node
/// i's value, `l[i-1]` the post-order index of its leftmost leaf.
struct Flat<T> {
    values: Vec<T>,
    l: Vec<usize>,
    keyroots: Vec<usize>,
}

impl<T: Copy> Flat<T> {
    spec fn ok(&self) -> bool {
        &&& self.values@.len() == self.l@.len()
        &&& laminar(self.l@)
        &&& forall|k: int| 0 <= k < self.keyroots@.len() ==> 1 <= #[trigger] self.keyroots@[k] <= self.values@.len()
        &&& forall|t: int| 0 <= t < self.keyroots@.len() ==> is_keyroot(self.l@, #[trigger] self.keyroots@[t] as int)
        &&& forall|t1: int, t2: int|
            0 <= t1 < t2 < self.keyroots@.len() ==> #[trigger] self.keyroots@[t1] < #[trigger] self.keyroots@[t2]
        &&& forall|k: int| #[trigger] is_keyroot(self.l@, k) ==> self.keyroots@.contains(k as usize)
        &&& self.l@.len() >= 1 ==> self.l@[self.l@.len() - 1] == 1
    }

    fn build(tree: &ZsTree<T>) -> (r: Self)
        requires
            zs_size(*tree) <= SIZE_LIMIT,
        ensures
            r.ok(),
            r.values@ == zs_values(*tree),
            forall|a: int| 0 <= a < r.l@.len() ==> #[trigger] r.l@[a] == zs_lefts(*tree, 0)[a],
    {
        let mut values: Vec<T> = Vec::new();
        let mut l: Vec<usize> = Vec::new();
        Self::flatten(tree, &mut values, &mut l);
        proof {
            assert(values@ =~= zs_values(*tree));
        }
        let n = values.len();

        // A keyroot is a node no later node shares a leftmost leaf
        // with — the root and every node with a left sibling.
        let mut seen: Vec<bool> = Vec::new();
        let mut i: usize = 0;
        while i <= n
            invariant
                i <= n + 1,
                n == values@.len(),
                n <= SIZE_LIMIT,
                seen@.len() == i,
                forall|t: int| 0 <= t < seen@.len() ==> !#[trigger] seen@[t],
            decreases n + 1 - i,
        {
            seen.push(false);
            i = i + 1;
        }
        let mut keyroots: Vec<usize> = Vec::new();
        let mut k = n;
        proof {
            assert forall|v: int| 0 <= v <= n implies (#[trigger] seen@[v] <==> exists|x: int|
                k <= x < n && #[trigger] l@[x] == v) by {}
        }
        while k >= 1
            invariant
                k <= n,
                n == values@.len(),
                n == l@.len(),
                seen@.len() == n + 1,
                laminar(l@),
                forall|j: int| 0 <= j < keyroots@.len() ==> k < #[trigger] keyroots@[j] <= n,
                forall|j: int| 0 <= j < keyroots@.len() ==> is_keyroot(l@, #[trigger] keyroots@[j] as int),
                forall|j1: int, j2: int| 0 <= j1 < j2 < keyroots@.len() ==> #[trigger] keyroots@[j1] > #[trigger] keyroots@[j2],
                forall|v: int| 0 <= v <= n ==> (#[trigger] seen@[v] <==> exists|x: int| k <= x < n && #[trigger] l@[x] == v),
                forall|k2: int| k < k2 <= n && #[trigger] is_keyroot(l@, k2) ==> keyroots@.contains(k2 as usize),
            decreases k,
        {
            let leftmost = l[k - 1];
            proof {
                assert(1 <= leftmost <= k);
            }
            if !seen[leftmost] {
                let ghost before = keyroots@;
                let ghost seen0 = seen@;
                seen.set(leftmost, true);
                keyroots.push(k);
                proof {
                    assert(is_keyroot(l@, k as int));
                    assert forall|j: int| 0 <= j < keyroots@.len() implies is_keyroot(l@, #[trigger] keyroots@[j] as int) by {
                        if j < before.len() {
                            assert(keyroots@[j] == before[j]);
                        }
                    }
                    assert forall|v: int| 0 <= v <= n implies (#[trigger] seen@[v] <==> exists|x: int|
                        k - 1 <= x < n && #[trigger] l@[x] == v) by {
                        if v == leftmost {
                            assert(l@[k - 1] == v);
                        } else {
                            assert(seen@[v] == seen0[v]);
                            if exists|x: int| k - 1 <= x < n && #[trigger] l@[x] == v {
                                let x = choose|x: int| k - 1 <= x < n && #[trigger] l@[x] == v;
                                assert(x != k - 1);
                            }
                        }
                    }
                    assert forall|k2: int| k - 1 < k2 <= n && #[trigger] is_keyroot(l@, k2) implies keyroots@.contains(k2 as usize) by {
                        if k2 == k {
                            assert(keyroots@[keyroots@.len() - 1] == k);
                        } else {
                            let t = choose|t: int| 0 <= t < before.len() && before[t] == k2 as usize;
                            assert(keyroots@[t] == before[t]);
                        }
                    }
                }
            } else {
                proof {
                    let x = choose|x: int| k <= x < n && #[trigger] l@[x] == leftmost;
                    assert(l@[(x + 1) - 1] == l@[k - 1]);
                    assert(!is_keyroot(l@, k as int));
                    assert forall|v: int| 0 <= v <= n implies (#[trigger] seen@[v] <==> exists|y: int|
                        k - 1 <= y < n && #[trigger] l@[y] == v) by {
                        if exists|y: int| k - 1 <= y < n && #[trigger] l@[y] == v {
                            let y = choose|y: int| k - 1 <= y < n && #[trigger] l@[y] == v;
                            if y == k - 1 {
                                assert(l@[x] == v);
                            }
                        }
                    }
                }
            }
            k = k - 1;
        }
        // Collected from the right; the DP wants them ascending.
        let mut ascending: Vec<usize> = Vec::new();
        let mut j = keyroots.len();
        while j > 0
            invariant
                j <= keyroots@.len(),
                forall|t: int| 0 <= t < keyroots@.len() ==> 1 <= #[trigger] keyroots@[t] <= n,
                forall|t: int| 0 <= t < ascending@.len() ==> 1 <= #[trigger] ascending@[t] <= n,
                ascending@.len() == keyroots@.len() - j,
                forall|t: int| 0 <= t < ascending@.len() ==> #[trigger] ascending@[t] == keyroots@[keyroots@.len() - 1 - t],
            decreases j,
        {
            j = j - 1;
            ascending.push(keyroots[j]);
        }
        proof {
            assert forall|t: int| 0 <= t < ascending@.len() implies is_keyroot(l@, #[trigger] ascending@[t] as int) by {
                assert(ascending@[t] == keyroots@[keyroots@.len() - 1 - t]);
            }
            assert forall|t1: int, t2: int| 0 <= t1 < t2 < ascending@.len() implies #[trigger] ascending@[t1]
                < #[trigger] ascending@[t2] by {
                assert(keyroots@[keyroots@.len() - 1 - t2] > keyroots@[keyroots@.len() - 1 - t1]);
            }
            assert forall|k2: int| #[trigger] is_keyroot(l@, k2) implies ascending@.contains(k2 as usize) by {
                assert(keyroots@.contains(k2 as usize));
                let t = choose|t: int| 0 <= t < keyroots@.len() && keyroots@[t] == k2 as usize;
                assert(ascending@[keyroots@.len() - 1 - t] == keyroots@[t]);
            }
        }
        Flat { values, l, keyroots: ascending }
    }

    /// Appends `tree` in post-order; returns its root's 1-based index.
    fn flatten(tree: &ZsTree<T>, values: &mut Vec<T>, l: &mut Vec<usize>) -> (index: usize)
        requires
            old(values)@.len() == old(l)@.len(),
            laminar(old(l)@),
            old(values)@.len() + zs_size(*tree) <= SIZE_LIMIT,
        ensures
            final(values)@ == old(values)@ + zs_values(*tree),
            final(l)@.len() == final(values)@.len(),
            final(l)@.subrange(0, old(l)@.len() as int) == old(l)@,
            laminar(final(l)@),
            forall|a: int| old(l)@.len() <= a < final(l)@.len() ==> #[trigger] final(l)@[a] >= old(l)@.len() + 1,
            index == final(values)@.len(),
            final(l)@[index - 1] == old(l)@.len() + 1,
            zs_lefts(*tree, old(l)@.len() as int).len() == zs_size(*tree),
            forall|a: int|
                old(l)@.len() <= a < final(l)@.len() ==> #[trigger] final(l)@[a] == zs_lefts(*tree, old(l)@.len() as int)[a
                    - old(l)@.len()],
        decreases tree,
    {
        let ghost start = values@.len();
        let ghost l0 = l@;
        let ghost v0 = values@;
        let mut first_root: usize = 0;
        let mut c: usize = 0;
        let count = tree.children.len();
        proof {
            assert(tree.children@.subrange(0, 0) =~= Seq::<ZsTree<T>>::empty());
            assert(zs_values(*tree) == forest_values(tree.children@) + seq![tree.value]);
        }
        while c < count
            invariant
                count == tree.children@.len(),
                c <= count,
                values@ == v0 + forest_values(tree.children@.subrange(0, c as int)),
                l@.len() == values@.len(),
                l@.subrange(0, start as int) == l0,
                laminar(l@),
                forall|a: int| start <= a < l@.len() ==> #[trigger] l@[a] >= start + 1,
                c > 0 ==> 1 <= first_root <= l@.len() && l@[first_root - 1] == start + 1,
                forest_lefts(tree.children@.subrange(0, c as int), start as int).len() == l@.len() - start,
                forall|a: int|
                    start <= a < l@.len() ==> #[trigger] l@[a] == forest_lefts(tree.children@.subrange(0, c as int), start as int)[a
                        - start],
                start == v0.len(),
                start == l0.len(),
                v0.len() + forest_values(tree.children@).len() + 1 <= SIZE_LIMIT,
                zs_values(*tree) == forest_values(tree.children@) + seq![tree.value],
            decreases count - c,
        {
            proof {
                lemma_forest_prefix_len(tree.children@, c as int);
                assert(decreases_to!(tree => tree.children@[c as int]));
            }
            let ghost before = l@;
            let ghost before_len = l@.len();
            let root = Self::flatten(&tree.children[c], values, l);
            proof {
                assert(tree.children@.subrange(0, c + 1).drop_last() =~= tree.children@.subrange(0, c as int));
                assert(tree.children@.subrange(0, c + 1).last() == tree.children@[c as int]);
                assert(l@.subrange(0, start as int) =~= l0) by {
                    assert(l@.subrange(0, before_len as int) == before);
                    assert forall|a: int| 0 <= a < start implies l@[a] == l0[a] by {
                        assert(l@.subrange(0, before_len as int)[a] == before[a]);
                        assert(before.subrange(0, start as int)[a] == l0[a]);
                    }
                }
                assert forall|a: int| start <= a < l@.len() implies #[trigger] l@[a] >= start + 1 by {
                    if a < before_len {
                        assert(l@.subrange(0, before_len as int)[a] == before[a]);
                    }
                }
                if c > 0 {
                    assert(l@.subrange(0, before_len as int)[first_root - 1] == before[first_root - 1]);
                }
                let sub0 = tree.children@.subrange(0, c as int);
                let sub1 = tree.children@.subrange(0, c + 1);
                assert(before_len == start + forest_values(sub0).len());
                assert(forest_lefts(sub1, start as int) == forest_lefts(sub0, start as int) + zs_lefts(
                    tree.children@[c as int],
                    (start + forest_values(sub0).len()) as int,
                ));
                assert forall|a: int| start <= a < l@.len() implies #[trigger] l@[a] == forest_lefts(sub1, start as int)[a
                    - start] by {
                    if a < before_len {
                        assert(l@.subrange(0, before_len as int)[a] == before[a]);
                    }
                }
            }
            if c == 0 {
                first_root = root;
            }
            c = c + 1;
        }
        proof {
            assert(tree.children@.subrange(0, count as int) =~= tree.children@);
        }
        values.push(tree.value);
        let index = values.len();
        let leftmost = if count > 0 {
            l[first_root - 1]
        } else {
            index
        };
        let ghost pre = l@;
        l.push(leftmost);
        proof {
            assert(l@.subrange(0, start as int) =~= l0) by {
                assert forall|a: int| 0 <= a < start implies l@[a] == l0[a] by {
                    assert(pre.subrange(0, start as int)[a] == l0[a]);
                }
            }
            assert(leftmost == start + 1);
            assert(zs_lefts(*tree, start as int) == forest_lefts(tree.children@, start as int) + seq![(start + 1) as int]);
            assert forall|a: int| start <= a < l@.len() implies #[trigger] l@[a] == zs_lefts(*tree, start as int)[a
                - start] by {
                if a < pre.len() {
                    assert(l@[a] == pre[a]);
                }
            }
            assert forall|a: int, b: int|
                #![trigger l@[a], l@[b]]
                0 <= a < l@.len() && l@[a] - 1 <= b <= a implies l@[a] <= l@[b] by {
                if a < pre.len() {
                    assert(l@[a] == pre[a]);
                    assert(l@[b] == pre[b]);
                }
            }
        }
        index
    }
}

proof fn lemma_forest_prefix_len<T>(ts: Seq<ZsTree<T>>, c: int)
    requires
        0 <= c < ts.len(),
    ensures
        forest_values(ts.subrange(0, c + 1)).len() <= forest_values(ts).len(),
        forest_values(ts.subrange(0, c + 1)) == forest_values(ts.subrange(0, c)) + zs_values(ts[c]),
    decreases ts.len(),
{
    assert(ts.subrange(0, c + 1).drop_last() =~= ts.subrange(0, c));
    if c + 1 < ts.len() {
        lemma_forest_prefix_len(ts.drop_last(), c);
        assert(ts.drop_last().subrange(0, c + 1) =~= ts.subrange(0, c + 1));
    } else {
        assert(ts.subrange(0, c + 1) =~= ts);
    }
}

/// The total weight of the pending subproblems: each pair weighs
/// 2^(i + j), so replacing a pair by pairs of strictly decreasing,
/// smaller index sums always lowers the total.
spec fn weight(s: Seq<(usize, usize)>) -> nat
    decreases s.len(),
{
    if s.len() == 0 {
        0
    } else {
        weight(s.drop_last()) + pow2((s.last().0 + s.last().1) as nat)
    }
}

/// A table of `rows` rows of `cols` entries.
spec fn rect(t: Seq<Vec<u32>>, rows: int, cols: int) -> bool {
    &&& t.len() == rows
    &&& forall|r: int| 0 <= r < rows ==> (#[trigger] t[r])@.len() == cols
}

/// Every entry of the table is at most `bound`.
spec fn bounded(t: Seq<Vec<u32>>, bound: int) -> bool {
    forall|r: int, c: int|
        0 <= r < t.len() && 0 <= c < t[r]@.len() ==> (#[trigger] t[r]@[c]) <= bound
}

fn zeros(rows: usize, cols: usize) -> (t: Vec<Vec<u32>>)
    ensures
        rect(t@, rows as int, cols as int),
        forall|r: int, c: int| 0 <= r < rows && 0 <= c < cols ==> (#[trigger] t@[r]@[c]) == 0,
{
    let mut t: Vec<Vec<u32>> = Vec::new();
    let mut r: usize = 0;
    while r < rows
        invariant
            r <= rows,
            rect(t@, r as int, cols as int),
            forall|a: int, c: int| 0 <= a < r && 0 <= c < cols ==> (#[trigger] t@[a]@[c]) == 0,
        decreases rows - r,
    {
        let mut row: Vec<u32> = Vec::new();
        let mut c: usize = 0;
        while c < cols
            invariant
                c <= cols,
                row@.len() == c,
                forall|k: int| 0 <= k < c ==> #[trigger] row@[k] == 0,
            decreases cols - c,
        {
            row.push(0);
            c = c + 1;
        }
        t.push(row);
        r = r + 1;
    }
    t
}

fn min3(a: u32, b: u32, c: u32) -> (r: u32)
    ensures
        r <= a && r <= b && r <= c,
        r == a || r == b || r == c,
{
    let ab = if a <= b { a } else { b };
    if ab <= c { ab } else { c }
}

struct Solver<T, F> {
    src: Flat<T>,
    dst: Flat<T>,
    relabel: F,
}

impl<T: Copy, F: Fn(T, T) -> Option<u32>> Solver<T, F> {
    spec fn n(&self) -> int {
        self.src.values@.len() as int
    }

    spec fn m(&self) -> int {
        self.dst.values@.len() as int
    }

    spec fn ok(&self) -> bool {
        &&& self.src.ok()
        &&& self.dst.ok()
        &&& 1 <= self.n()
        &&& 1 <= self.m()
        &&& self.n() + self.m() <= SIZE_LIMIT
        &&& forall|a: T, b: T| self.src.values@.contains(a) && self.dst.values@.contains(b) ==> call_requires(self.relabel, (a, b))
        &&& prices_consistently(self.relabel, self.src.values@, self.dst.values@)
    }

    /// What matching src position `d` to dst position `e` (1-based)
    /// costs: the price `relabel` answers, or INF where it forbids the
    /// pair.
    spec fn cost_at(&self, d: int, e: int) -> int {
        let a = self.src.values@[d - 1];
        let b = self.dst.values@[e - 1];
        if exists|c: u32| call_ensures(self.relabel, (a, b), Some(c)) {
            (choose|c: u32| call_ensures(self.relabel, (a, b), Some(c))) as int
        } else {
            INF as int
        }
    }

    /// The forest distance between src positions `li..=d` and dst
    /// positions `lj..=e`: delete, insert, or close the last two nodes —
    /// by a relabel where both are roots of their forests, else as a
    /// whole subtree pair priced by `td`.
    #[verifier::opaque]
    spec fn fdist(&self, li: int, lj: int, d: int, e: int, td: Seq<Vec<u32>>) -> int
        decreases d + e + 2,
    {
        if d + e <= 0 || (d < li && e < lj) {
            0
        } else if d < li {
            self.fdist(li, lj, d, e - 1, td) + 1
        } else if e < lj {
            self.fdist(li, lj, d - 1, e, td) + 1
        } else {
            let sl = self.src.l@[d - 1] as int;
            let dl = self.dst.l@[e - 1] as int;
            let third = if sl == li && dl == lj {
                self.fdist(li, lj, d - 1, e - 1, td) + self.cost_at(d, e)
            } else if 1 <= sl <= d && 1 <= dl <= e {
                self.fdist(li, lj, sl - 1, dl - 1, td) + td[d]@[e]
            } else {
                0
            };
            min_of3(self.fdist(li, lj, d - 1, e, td) + 1, self.fdist(li, lj, d, e - 1, td) + 1, third)
        }
    }

    /// The positions a pending subproblem covers: the two subtrees'
    /// post-order spans.
    spec fn sub_box(&self, p: (usize, usize)) -> (int, int, int, int) {
        (self.src.l@[p.0 - 1] as int, p.0 as int, self.dst.l@[p.1 - 1] as int, p.1 as int)
    }

    /// `spots` holds each emitted pair's 1-based post-order positions.
    spec fn spots_ok(&self, spots: Seq<(int, int)>, pairs: Seq<(T, T)>) -> bool {
        &&& spots.len() == pairs.len()
        &&& forall|k: int|
            0 <= k < spots.len() ==> 1 <= (#[trigger] spots[k]).0 <= self.n() && 1 <= spots[k].1 <= self.m()
                && pairs[k] == (self.src.values@[spots[k].0 - 1], self.dst.values@[spots[k].1 - 1])
    }

    /// Emitted positions and pending subproblems never overlap or cross.
    spec fn layout_ok(&self, spots: Seq<(int, int)>, subs: Seq<(usize, usize)>) -> bool {
        &&& pairwise_apart(spots)
        &&& forall|k: int, t: int|
            0 <= k < spots.len() && 0 <= t < subs.len() ==> apart(
                spot_box(#[trigger] spots[k]),
                self.sub_box(#[trigger] subs[t]),
            )
        &&& forall|t1: int, t2: int|
            0 <= t1 < subs.len() && 0 <= t2 < subs.len() && t1 != t2 ==> apart(
                self.sub_box(#[trigger] subs[t1]),
                self.sub_box(#[trigger] subs[t2]),
            )
    }

    /// Emitted positions agree on ancestry on both sides, and each agrees
    /// alike with the two roots of every pending subproblem.
    spec fn family_ok(&self, spots: Seq<(int, int)>, subs: Seq<(usize, usize)>) -> bool {
        &&& forall|k1: int, k2: int|
            0 <= k1 < spots.len() && 0 <= k2 < spots.len() ==> (flat_anc(
                self.src.l@,
                (#[trigger] spots[k1]).0,
                (#[trigger] spots[k2]).0,
            ) <==> flat_anc(self.dst.l@, spots[k1].1, spots[k2].1))
        &&& forall|k: int, t: int|
            0 <= k < spots.len() && 0 <= t < subs.len() ==> (flat_anc(
                self.src.l@,
                (#[trigger] spots[k]).0,
                (#[trigger] subs[t]).0 as int,
            ) <==> flat_anc(self.dst.l@, spots[k].1, subs[t].1 as int))
    }

    /// Emitting a pair of two whole-forest roots inside the current
    /// region keeps ancestry in agreement: earlier walks' positions lie
    /// outside the region and relate to it through its roots, and this
    /// walk's positions are ancestors of the new pair on both sides.
    proof fn lemma_emit_family(
        &self,
        sp: Seq<(int, int)>,
        subs: Seq<(usize, usize)>,
        sp0: Seq<(int, int)>,
        sub0: Seq<(usize, usize)>,
        i: int,
        j: int,
        q: (int, int),
    )
        requires
            self.ok(),
            self.family_ok(sp, subs),
            self.layout_ok(sp, subs),
            forall|k: int| 0 <= k < sp.len() ==> 1 <= (#[trigger] sp[k]).0 <= self.n() && 1 <= sp[k].1 <= self.m(),
            1 <= i <= self.n(),
            1 <= j <= self.m(),
            sp0.len() <= sp.len(),
            forall|k: int| 0 <= k < sp0.len() ==> sp[k] == sp0[k],
            sub0.len() <= subs.len(),
            forall|t: int| 0 <= t < sub0.len() ==> subs[t] == sub0[t],
            self.src.l@[i - 1] <= q.0 <= i,
            self.dst.l@[j - 1] <= q.1 <= j,
            self.src.l@[q.0 - 1] == self.src.l@[i - 1],
            self.dst.l@[q.1 - 1] == self.dst.l@[j - 1],
            forall|k: int|
                sp0.len() <= k < sp.len() ==> (#[trigger] sp[k]).0 > q.0 && sp[k].1 > q.1 && self.src.l@[sp[k].0 - 1]
                    == self.src.l@[i - 1] && self.dst.l@[sp[k].1 - 1] == self.dst.l@[j - 1],
            forall|t: int|
                sub0.len() <= t < subs.len() ==> self.sub_box(#[trigger] subs[t]).0 > q.0 && self.sub_box(subs[t]).2
                    > q.1,
            forall|k: int| 0 <= k < sp0.len() ==> apart(self.sub_box((i as usize, j as usize)), spot_box(#[trigger] sp0[k])),
            forall|t: int|
                0 <= t < sub0.len() ==> apart(self.sub_box((i as usize, j as usize)), self.sub_box(#[trigger] sub0[t])),
            forall|k: int|
                0 <= k < sp0.len() ==> (flat_anc(self.src.l@, (#[trigger] sp0[k]).0, i) <==> flat_anc(
                    self.dst.l@,
                    sp0[k].1,
                    j,
                )),
        ensures
            self.family_ok(sp.push(q), subs),
    {
        let next = sp.push(q);
        let sl = self.src.l@;
        let dl = self.dst.l@;
        assert forall|k1: int, k2: int| 0 <= k1 < next.len() && 0 <= k2 < next.len() implies (flat_anc(
            sl,
            (#[trigger] next[k1]).0,
            (#[trigger] next[k2]).0,
        ) <==> flat_anc(dl, next[k1].1, next[k2].1)) by {
            if k1 < sp.len() && k2 < sp.len() {
                assert(next[k1] == sp[k1] && next[k2] == sp[k2]);
            } else if k1 < sp.len() || k2 < sp.len() {
                let other = if k1 < sp.len() { k1 } else { k2 };
                let p = sp[other];
                assert(next[other] == p);
                assert(1 <= p.0 <= self.n() && 1 <= p.1 <= self.m());
                if other < sp0.len() {
                    assert(p == sp0[other]);
                    lemma_anc_from_outside(sl, p.0, i, q.0);
                    lemma_anc_from_outside(dl, p.1, j, q.1);
                }
            }
        }
        assert forall|k: int, t: int| 0 <= k < next.len() && 0 <= t < subs.len() implies (flat_anc(
            sl,
            (#[trigger] next[k]).0,
            (#[trigger] subs[t]).0 as int,
        ) <==> flat_anc(dl, next[k].1, subs[t].1 as int)) by {
            if k < sp.len() {
                assert(next[k] == sp[k]);
            } else if t < sub0.len() {
                assert(subs[t] == sub0[t]);
                assert(apart(self.sub_box((i as usize, j as usize)), self.sub_box(sub0[t])));
            }
        }
    }

    /// Deferring a subproblem inside the current region keeps ancestry in
    /// agreement, by the same argument as emitting a pair there.
    proof fn lemma_push_family(
        &self,
        sp: Seq<(int, int)>,
        subs: Seq<(usize, usize)>,
        sp0: Seq<(int, int)>,
        i: int,
        j: int,
        p: (usize, usize),
    )
        requires
            self.ok(),
            self.family_ok(sp, subs),
            self.layout_ok(sp, subs),
            forall|k: int| 0 <= k < sp.len() ==> 1 <= (#[trigger] sp[k]).0 <= self.n() && 1 <= sp[k].1 <= self.m(),
            1 <= i <= self.n(),
            1 <= j <= self.m(),
            sp0.len() <= sp.len(),
            forall|k: int| 0 <= k < sp0.len() ==> sp[k] == sp0[k],
            self.src.l@[i - 1] <= p.0 <= i,
            self.dst.l@[j - 1] <= p.1 <= j,
            forall|k: int|
                sp0.len() <= k < sp.len() ==> (#[trigger] sp[k]).0 > p.0 && sp[k].1 > p.1 && self.src.l@[sp[k].0 - 1]
                    == self.src.l@[i - 1] && self.dst.l@[sp[k].1 - 1] == self.dst.l@[j - 1],
            forall|k: int| 0 <= k < sp0.len() ==> apart(self.sub_box((i as usize, j as usize)), spot_box(#[trigger] sp0[k])),
            forall|k: int|
                0 <= k < sp0.len() ==> (flat_anc(self.src.l@, (#[trigger] sp0[k]).0, i) <==> flat_anc(
                    self.dst.l@,
                    sp0[k].1,
                    j,
                )),
        ensures
            self.family_ok(sp, subs.push(p)),
    {
        let next = subs.push(p);
        let sl = self.src.l@;
        let dl = self.dst.l@;
        assert forall|k: int, t: int| 0 <= k < sp.len() && 0 <= t < next.len() implies (flat_anc(
            sl,
            (#[trigger] sp[k]).0,
            (#[trigger] next[t]).0 as int,
        ) <==> flat_anc(dl, sp[k].1, next[t].1 as int)) by {
            if t < subs.len() {
                assert(next[t] == subs[t]);
            } else if k < sp0.len() {
                assert(sp[k] == sp0[k]);
                lemma_anc_from_outside(sl, sp[k].0, i, p.0 as int);
                lemma_anc_from_outside(dl, sp[k].1, j, p.1 as int);
            }
        }
    }

    /// The facts the backtrack relies on about one forest table: its
    /// shape, its first row and column counting pure deletions and
    /// insertions, every entry within the deletion-plus-insertion
    /// bound, and every diagonal step that closes two whole subtrees
    /// taken only through a permitted relabel.
    spec fn table_ok(&self, i: int, j: int, fd: Seq<Vec<u32>>) -> bool {
        let li = self.src.l@[i - 1] as int;
        let lj = self.dst.l@[j - 1] as int;
        &&& rect(fd, i + 1, j + 1)
        &&& forall|d: int| #![trigger fd[d]] li <= d <= i ==> fd[d]@[lj - 1] == fd[d - 1]@[lj - 1] + 1
        &&& forall|e: int| #![trigger fd[li - 1]@[e]] lj <= e <= j ==> fd[li - 1]@[e] == fd[li - 1]@[e - 1] + 1
        &&& forall|d: int, e: int|
            li - 1 <= d <= i && lj - 1 <= e <= j ==> #[trigger] fd[d]@[e] <= (d - li + 1) + (e - lj + 1)
        &&& forall|d: int, e: int|
            li <= d <= i && lj <= e <= j && self.src.l@[d - 1] == li && self.dst.l@[e - 1] == lj
                && #[trigger] fd[d]@[e] != fd[d - 1]@[e] + 1 && fd[d]@[e] != fd[d]@[e - 1] + 1
                ==> permitted(self.relabel, self.src.values@[d - 1], self.dst.values@[e - 1])
    }

    fn solve(&self) -> (r: (Vec<(T, T)>, u32))
        requires
            self.ok(),
        ensures
            forall|k: int| 0 <= k < r.0@.len() ==> self.src.values@.contains((#[trigger] r.0@[k]).0) && self.dst.values@.contains(r.0@[k].1),
            forall|k: int| 0 <= k < r.0@.len() ==> permitted(self.relabel, (#[trigger] r.0@[k]).0, r.0@[k].1),
            r.1 <= self.n() + self.m(),
            exists|spots: Seq<(int, int)>|
                #[trigger] self.spots_ok(spots, r.0@) && pairwise_apart(spots) && self.family_ok(
                    spots,
                    Seq::<(usize, usize)>::empty(),
                ),
            exists|costs: Seq<u32>|
                costs.len() == r.0@.len() && (forall|k: int|
                    0 <= k < costs.len() ==> call_ensures(self.relabel, (r.0@[k].0, r.0@[k].1), Some(#[trigger] costs[k])))
                    && #[trigger] price_total(costs) + (self.n() - r.0@.len()) + (self.m() - r.0@.len()) == r.1,
            self.identical() ==> r.1 == 0,
            self.same_shape() ==> r.1 <= self.diag_total(1, self.n()),
            forall|mp: Seq<(int, int)>|
                #[trigger] pairs_ordered(mp, self.n(), self.m()) && self.pairs_agree(mp) ==> r.1 <= self.src_sum(
                    mp,
                    1,
                    self.n(),
                ) + self.dst_sum(mp, 1, self.m()),
    {
        let n = self.src.values.len();
        let m = self.dst.values.len();
        let mut treedist = zeros(n + 1, m + 1);
        proof {
            assert(is_keyroot(self.src.l@, n as int));
            assert(is_keyroot(self.dst.l@, m as int));
            assert(self.src.keyroots@.contains(n));
            assert(self.dst.keyroots@.contains(m));
            assert forall|d: int, e: int|
                1 <= d <= n && 1 <= e <= m && self.done_before(0, 0, d, e) implies #[trigger] self.settled_at(treedist@, d, e) by {
                lemma_root_of(self.src.l@, d);
                lemma_root_of(self.dst.l@, e);
                self.lemma_cut_step(0, 0);
            }
        }
        let mut a: usize = 0;
        while a < self.src.keyroots.len()
            invariant
                self.ok(),
                n == self.n(),
                m == self.m(),
                rect(treedist@, n + 1, m + 1),
                bounded(treedist@, n + m),
                a <= self.src.keyroots@.len(),
                self.dst.keyroots@.len() > 0,
                self.settled_upto(treedist@, a as int, 0),
            decreases self.src.keyroots@.len() - a,
        {
            let i = self.src.keyroots[a];
            let mut b: usize = 0;
            while b < self.dst.keyroots.len()
                invariant
                    self.ok(),
                    n == self.n(),
                    m == self.m(),
                    1 <= i <= n,
                    i == self.src.keyroots@[a as int],
                    a < self.src.keyroots@.len(),
                    b <= self.dst.keyroots@.len(),
                    rect(treedist@, n + 1, m + 1),
                    bounded(treedist@, n + m),
                    self.settled_upto(treedist@, a as int, b as int),
                decreases self.dst.keyroots@.len() - b,
            {
                let j = self.dst.keyroots[b];
                let ghost td0 = treedist@;
                let fd = self.forest_dist(i, j, &mut treedist);
                proof {
                    self.lemma_dp_step(a as int, b as int, td0, treedist@, fd@);
                }
                b = b + 1;
            }
            proof {
                let lb = self.dst.keyroots@.len() as int;
                self.lemma_cut_step(a as int, lb - 1);
                assert forall|d: int, e: int|
                    1 <= d <= n && 1 <= e <= m && self.done_before(a + 1, 0, d, e) implies #[trigger] self.settled_at(
                    treedist@,
                    d,
                    e,
                ) by {
                    lemma_root_of(self.src.l@, d);
                    lemma_root_of(self.dst.l@, e);
                    assert(self.done_before(a as int, lb, d, e));
                }
            }
            a = a + 1;
        }
        let distance = treedist[n][m];
        let ghost tdf = treedist@;
        proof {
            assert forall|d: int, e: int| 1 <= d <= n && 1 <= e <= m implies #[trigger] self.settled_at(tdf, d, e) by {
                lemma_root_of(self.src.l@, d);
                assert(self.done_before(a as int, 0, d, e));
            }
            assert(self.fully_settled(tdf));
            if self.identical() {
                assert forall|p: int| 1 <= p <= self.n() implies #[trigger] self.settled_at(tdf, p, p) by {}
                assert forall|p: int| 1 <= p <= n implies 1 <= #[trigger] self.src.l@[p - 1] by {}
                self.lemma_identical_fdist(1, n as int, tdf);
                assert(self.settled_at(tdf, n as int, n as int));
                assert(m == n);
            }
            assert forall|mp: Seq<(int, int)>|
                #[trigger] pairs_ordered(mp, self.n(), self.m()) && self.pairs_agree(mp) implies distance
                <= self.src_sum(mp, 1, self.n()) + self.dst_sum(mp, 1, self.m()) by {
                assert forall|i: int| 1 <= i <= n && #[trigger] partner_src(mp, i) != 0 implies 1 <= partner_src(
                    mp,
                    i,
                ) <= m by {
                    let k = lemma_partner_src(mp, i);
                }
                assert forall|j: int| 1 <= j <= m && #[trigger] partner_dst(mp, j) != 0 implies 1 <= partner_dst(
                    mp,
                    j,
                ) <= n by {
                    let k = lemma_partner_dst(mp, j);
                }
                assert forall|p: int| 1 <= p <= n implies 1 <= #[trigger] self.src.l@[p - 1] by {}
                assert forall|q: int| 1 <= q <= m implies 1 <= #[trigger] self.dst.l@[q - 1] by {}
                self.lemma_fdist_lower(mp, 1, 1, n as int, m as int, tdf);
                assert(self.settled_at(tdf, n as int, m as int));
            }
            if self.same_shape() {
                assert forall|p: int| 1 <= p <= self.n() implies #[trigger] self.settled_at(tdf, p, p) by {}
                assert forall|p: int| 1 <= p <= n implies 1 <= #[trigger] self.src.l@[p - 1] by {}
                self.lemma_same_shape_fdist(1, n as int, tdf);
                assert(self.settled_at(tdf, n as int, n as int));
                assert(m == n);
            }
        }

        // Backtrack: walk each subtree pair's forest table from the
        // corner, emitting pairs on diagonal steps that close a whole
        // subtree and deferring other subtree pairs as subproblems.
        let mut pairs: Vec<(T, T)> = Vec::new();
        let mut subproblems: Vec<(usize, usize)> = Vec::new();
        subproblems.push((n, m));
        let ghost mut spots: Seq<(int, int)> = Seq::empty();
        let ghost mut dels: int = 0;
        let ghost mut ins: int = 0;
        let ghost mut costs: Seq<u32> = Seq::empty();
        proof {
            assert(subproblems@.drop_last() =~= Seq::<(usize, usize)>::empty());
            assert(self.src.l@[n - 1] == 1 && self.dst.l@[m - 1] == 1);
            self.lemma_totals_push(Seq::<(usize, usize)>::empty(), (n, m), tdf);
            assert(subproblems@ =~= Seq::<(usize, usize)>::empty().push((n, m)));
            assert(price_total(costs) == 0);
        }
        loop
            invariant
                self.ok(),
                n == self.n(),
                m == self.m(),
                rect(treedist@, n + 1, m + 1),
                bounded(treedist@, n + m),
                forall|k: int| 0 <= k < subproblems@.len() ==> 1 <= (#[trigger] subproblems@[k]).0 <= n && 1 <= subproblems@[k].1 <= m,
                forall|k: int| 0 <= k < pairs@.len() ==> self.src.values@.contains((#[trigger] pairs@[k]).0) && self.dst.values@.contains(pairs@[k].1),
                forall|k: int| 0 <= k < pairs@.len() ==> permitted(self.relabel, (#[trigger] pairs@[k]).0, pairs@[k].1),
                self.spots_ok(spots, pairs@),
                self.layout_ok(spots, subproblems@),
                self.family_ok(spots, subproblems@),
                rect(tdf, n + 1, m + 1),
                bounded(tdf, n + m),
                self.fully_settled(tdf),
                forall|d: int, e: int| 0 <= d <= n && 0 <= e <= m ==> #[trigger] treedist@[d]@[e] == tdf[d]@[e],
                costs.len() == pairs@.len(),
                forall|k: int|
                    0 <= k < costs.len() ==> call_ensures(self.relabel, (pairs@[k].0, pairs@[k].1), Some(#[trigger] costs[k])),
                dels + ins + price_total(costs) + self.td_total(subproblems@, tdf) == distance,
                dels + pairs@.len() + self.src_span_total(subproblems@) == n,
                ins + pairs@.len() + self.dst_span_total(subproblems@) == m,
            ensures
                self.spots_ok(spots, pairs@),
                pairwise_apart(spots),
                self.family_ok(spots, Seq::<(usize, usize)>::empty()),
                costs.len() == pairs@.len(),
                forall|k: int|
                    0 <= k < costs.len() ==> call_ensures(self.relabel, (pairs@[k].0, pairs@[k].1), Some(#[trigger] costs[k])),
                price_total(costs) + (n - pairs@.len()) + (m - pairs@.len()) == distance,
            decreases weight(subproblems@),
        {
            let ghost before = subproblems@;
            let (i, j) = match subproblems.pop() {
                Some(p) => p,
                None => {
                    proof {
                        assert(before =~= Seq::<(usize, usize)>::empty());
                        self.lemma_totals_push(before, (n, m), tdf);
                    }
                    break;
                },
            };
            let ghost rest = subproblems@;
            proof {
                assert(rest == before.drop_last());
                assert(weight(before) == weight(rest) + pow2((i + j) as nat));
            }
            let ghost td_before = treedist@;
            let fd = self.forest_dist(i, j, &mut treedist);
            proof {
                self.lemma_totals_push(rest, (i, j), tdf);
                assert(before =~= rest.push((i, j)));
                self.lemma_recompute(i as int, j as int, tdf, td_before, treedist@, fd@);
                let popped = before.len() - 1;
                assert(before[popped] == (i, j));
                assert forall|k: int| 0 <= k < spots.len() implies apart(
                    self.sub_box((i, j)),
                    spot_box(#[trigger] spots[k]),
                ) by {
                    assert(apart(spot_box(spots[k]), self.sub_box(before[popped])));
                }
                assert forall|t: int| 0 <= t < rest.len() implies apart(
                    self.sub_box((i, j)),
                    self.sub_box(#[trigger] rest[t]),
                ) by {
                    assert(rest[t] == before[t]);
                    assert(apart(self.sub_box(before[popped]), self.sub_box(before[t])));
                }
                assert forall|k: int, t: int|
                    0 <= k < spots.len() && 0 <= t < rest.len() implies apart(
                    spot_box(#[trigger] spots[k]),
                    self.sub_box(#[trigger] rest[t]),
                ) by {
                    assert(rest[t] == before[t]);
                }
                assert forall|t1: int, t2: int|
                    0 <= t1 < rest.len() && 0 <= t2 < rest.len() && t1 != t2 implies apart(
                    self.sub_box(#[trigger] rest[t1]),
                    self.sub_box(#[trigger] rest[t2]),
                ) by {
                    assert(rest[t1] == before[t1] && rest[t2] == before[t2]);
                }
                assert forall|k: int, t: int| 0 <= k < spots.len() && 0 <= t < rest.len() implies (flat_anc(
                    self.src.l@,
                    (#[trigger] spots[k]).0,
                    (#[trigger] rest[t]).0 as int,
                ) <==> flat_anc(self.dst.l@, spots[k].1, rest[t].1 as int)) by {
                    assert(rest[t] == before[t]);
                }
                assert forall|k: int| 0 <= k < spots.len() implies (flat_anc(self.src.l@, (#[trigger] spots[k]).0, i as int)
                    <==> flat_anc(self.dst.l@, spots[k].1, j as int)) by {
                    assert(before[popped] == (i, j));
                }
            }
            let ghost pairs_before = pairs@;
            let Ghost(next) = self.backtrack(i, j, &fd, &mut pairs, &mut subproblems, Ghost(spots), Ghost(tdf));
            proof {
                spots = next.0;
                let added = subproblems@.skip(rest.len() as int);
                assert(subproblems@ =~= rest + added);
                self.lemma_totals_concat(rest, added, tdf);
                lemma_price_total_concat(costs, next.3);
                let old_costs = costs;
                costs = costs + next.3;
                dels = dels + next.1;
                ins = ins + next.2;
                assert forall|k: int|
                    0 <= k < costs.len() implies call_ensures(self.relabel, (pairs@[k].0, pairs@[k].1), Some(#[trigger] costs[k])) by {
                    if k < old_costs.len() {
                        assert(pairs@[k] == pairs_before[k]);
                        assert(costs[k] == old_costs[k]);
                    } else {
                        assert(costs[k] == next.3[k - old_costs.len()]);
                    }
                }
            }
        }
        let r = (pairs, distance);
        proof {
            assert(self.spots_ok(spots, r.0@) && pairwise_apart(spots) && self.family_ok(
                spots,
                Seq::<(usize, usize)>::empty(),
            ));
            assert(costs.len() == r.0@.len() && (forall|k: int|
                0 <= k < costs.len() ==> call_ensures(self.relabel, (r.0@[k].0, r.0@[k].1), Some(#[trigger] costs[k])))
                && price_total(costs) + (self.n() - r.0@.len()) + (self.m() - r.0@.len()) == r.1);
        }
        r
    }

    /// Walks one subtree pair's forest table back from the corner:
    /// emits a pair on every diagonal step that closes two whole
    /// subtrees, and defers every other subtree pair it crosses.
    /// Emitting a pair inside the current region, below and left of
    /// everything this walk placed so far, keeps the layout apart.
    proof fn lemma_emit(
        &self,
        sp: Seq<(int, int)>,
        subs: Seq<(usize, usize)>,
        sp0: Seq<(int, int)>,
        sub0: Seq<(usize, usize)>,
        region: (int, int, int, int),
        spot: (int, int),
    )
        requires
            self.layout_ok(sp, subs),
            sp0.len() <= sp.len(),
            forall|k: int| 0 <= k < sp0.len() ==> sp[k] == sp0[k],
            sub0.len() <= subs.len(),
            forall|t: int| 0 <= t < sub0.len() ==> subs[t] == sub0[t],
            within(spot_box(spot), region),
            forall|k: int| sp0.len() <= k < sp.len() ==> (#[trigger] sp[k]).0 > spot.0 && sp[k].1 > spot.1,
            forall|t: int|
                sub0.len() <= t < subs.len() ==> self.sub_box(#[trigger] subs[t]).0 > spot.0 && self.sub_box(subs[t]).2
                    > spot.1,
            forall|k: int| 0 <= k < sp0.len() ==> apart(region, spot_box(#[trigger] sp0[k])),
            forall|t: int| 0 <= t < sub0.len() ==> apart(region, self.sub_box(#[trigger] sub0[t])),
        ensures
            self.layout_ok(sp.push(spot), subs),
    {
        let next = sp.push(spot);
        assert forall|k1: int, k2: int|
            0 <= k1 < next.len() && 0 <= k2 < next.len() && k1 != k2 implies apart(
            spot_box(#[trigger] next[k1]),
            spot_box(#[trigger] next[k2]),
        ) by {
            if k1 < sp.len() && k2 < sp.len() {
                assert(next[k1] == sp[k1] && next[k2] == sp[k2]);
            } else {
                let other = if k1 < sp.len() { k1 } else { k2 };
                assert(next[other] == sp[other]);
                if other < sp0.len() {
                    lemma_within_apart(spot_box(spot), region, spot_box(sp0[other]));
                }
            }
        }
        assert forall|k: int, t: int|
            0 <= k < next.len() && 0 <= t < subs.len() implies apart(
            spot_box(#[trigger] next[k]),
            self.sub_box(#[trigger] subs[t]),
        ) by {
            if k < sp.len() {
                assert(next[k] == sp[k]);
            } else if t < sub0.len() {
                lemma_within_apart(spot_box(spot), region, self.sub_box(sub0[t]));
            }
        }
    }

    /// Deferring a subproblem inside the current region, below and left
    /// of everything this walk placed so far, keeps the layout apart.
    proof fn lemma_push(
        &self,
        sp: Seq<(int, int)>,
        subs: Seq<(usize, usize)>,
        sp0: Seq<(int, int)>,
        sub0: Seq<(usize, usize)>,
        region: (int, int, int, int),
        p: (usize, usize),
    )
        requires
            self.layout_ok(sp, subs),
            sp0.len() <= sp.len(),
            forall|k: int| 0 <= k < sp0.len() ==> sp[k] == sp0[k],
            sub0.len() <= subs.len(),
            forall|t: int| 0 <= t < sub0.len() ==> subs[t] == sub0[t],
            within(self.sub_box(p), region),
            forall|k: int| sp0.len() <= k < sp.len() ==> (#[trigger] sp[k]).0 > p.0 && sp[k].1 > p.1,
            forall|t: int|
                sub0.len() <= t < subs.len() ==> self.sub_box(#[trigger] subs[t]).0 > p.0 && self.sub_box(subs[t]).2
                    > p.1,
            forall|k: int| 0 <= k < sp0.len() ==> apart(region, spot_box(#[trigger] sp0[k])),
            forall|t: int| 0 <= t < sub0.len() ==> apart(region, self.sub_box(#[trigger] sub0[t])),
        ensures
            self.layout_ok(sp, subs.push(p)),
    {
        let next = subs.push(p);
        let b = self.sub_box(p);
        assert forall|k: int, t: int|
            0 <= k < sp.len() && 0 <= t < next.len() implies apart(
            spot_box(#[trigger] sp[k]),
            self.sub_box(#[trigger] next[t]),
        ) by {
            if t < subs.len() {
                assert(next[t] == subs[t]);
            } else if k < sp0.len() {
                lemma_within_apart(b, region, spot_box(sp0[k]));
            }
        }
        assert forall|t1: int, t2: int|
            0 <= t1 < next.len() && 0 <= t2 < next.len() && t1 != t2 implies apart(
            self.sub_box(#[trigger] next[t1]),
            self.sub_box(#[trigger] next[t2]),
        ) by {
            if t1 < subs.len() && t2 < subs.len() {
                assert(next[t1] == subs[t1] && next[t2] == subs[t2]);
            } else {
                let other = if t1 < subs.len() { t1 } else { t2 };
                assert(next[other] == subs[other]);
                if other < sub0.len() {
                    lemma_within_apart(b, region, self.sub_box(sub0[other]));
                }
            }
        }
    }

    /// A diagonal step that closes two forest roots, taken where neither
    /// a deletion nor an insertion accounts for the entry, costs one
    /// price `relabel` answers.
    proof fn lemma_emit_step(&self, li: int, lj: int, d: int, e: int, fd: Seq<Vec<u32>>, tdf: Seq<Vec<u32>>)
        requires
            self.ok(),
            1 <= li <= d <= self.n(),
            1 <= lj <= e <= self.m(),
            self.src.l@[d - 1] == li,
            self.dst.l@[e - 1] == lj,
            fd[d]@[e] == self.fdist(li, lj, d, e, tdf),
            fd[d - 1]@[e] == self.fdist(li, lj, d - 1, e, tdf),
            fd[d]@[e - 1] == self.fdist(li, lj, d, e - 1, tdf),
            fd[d - 1]@[e - 1] == self.fdist(li, lj, d - 1, e - 1, tdf),
            fd[d]@[e] != fd[d - 1]@[e] + 1,
            fd[d]@[e] != fd[d]@[e - 1] + 1,
            fd[d]@[e] < INF,
        ensures
            exists|c: u32| call_ensures(self.relabel, (self.src.values@[d - 1], self.dst.values@[e - 1]), Some(c)),
            fd[d]@[e] == fd[d - 1]@[e - 1] + (choose|c: u32|
                call_ensures(self.relabel, (self.src.values@[d - 1], self.dst.values@[e - 1]), Some(c))),
    {
        reveal(Solver::fdist);
        assert(fd[d]@[e] == fd[d - 1]@[e - 1] + self.cost_at(d, e));
    }

    /// A step that closes a whole subtree pair costs that pair's settled
    /// distance.
    proof fn lemma_close_step(&self, li: int, lj: int, d: int, e: int, fd: Seq<Vec<u32>>, tdf: Seq<Vec<u32>>)
        requires
            self.ok(),
            1 <= li <= d <= self.n(),
            1 <= lj <= e <= self.m(),
            li <= self.src.l@[d - 1] <= d,
            lj <= self.dst.l@[e - 1] <= e,
            !(self.src.l@[d - 1] == li && self.dst.l@[e - 1] == lj),
            fd[d]@[e] == self.fdist(li, lj, d, e, tdf),
            fd[d - 1]@[e] == self.fdist(li, lj, d - 1, e, tdf),
            fd[d]@[e - 1] == self.fdist(li, lj, d, e - 1, tdf),
            fd[self.src.l@[d - 1] - 1]@[self.dst.l@[e - 1] - 1] == self.fdist(
                li,
                lj,
                self.src.l@[d - 1] - 1,
                self.dst.l@[e - 1] - 1,
                tdf,
            ),
            fd[d]@[e] != fd[d - 1]@[e] + 1,
            fd[d]@[e] != fd[d]@[e - 1] + 1,
        ensures
            fd[d]@[e] == fd[self.src.l@[d - 1] - 1]@[self.dst.l@[e - 1] - 1] + tdf[d]@[e],
    {
        reveal(Solver::fdist);
    }

    #[verifier::spinoff_prover]
    #[verifier::rlimit(50)]
    fn backtrack(
        &self,
        i: usize,
        j: usize,
        fd: &Vec<Vec<u32>>,
        pairs: &mut Vec<(T, T)>,
        subproblems: &mut Vec<(usize, usize)>,
        spots: Ghost<Seq<(int, int)>>,
        tdf: Ghost<Seq<Vec<u32>>>,
    ) -> (placed: Ghost<(Seq<(int, int)>, int, int, Seq<u32>)>)
        requires
            self.ok(),
            1 <= i <= self.n(),
            1 <= j <= self.m(),
            self.table_ok(i as int, j as int, fd@),
            forall|k: int| 0 <= k < old(subproblems)@.len() ==> 1 <= (#[trigger] old(subproblems)@[k]).0 <= self.n() && 1 <= old(subproblems)@[k].1 <= self.m(),
            forall|k: int| 0 <= k < old(pairs)@.len() ==> self.src.values@.contains((#[trigger] old(pairs)@[k]).0) && self.dst.values@.contains(old(pairs)@[k].1),
            forall|k: int| 0 <= k < old(pairs)@.len() ==> permitted(self.relabel, (#[trigger] old(pairs)@[k]).0, old(pairs)@[k].1),
            self.spots_ok(spots@, old(pairs)@),
            self.layout_ok(spots@, old(subproblems)@),
            forall|k: int| 0 <= k < spots@.len() ==> apart(self.sub_box((i, j)), spot_box(#[trigger] spots@[k])),
            forall|t: int| 0 <= t < old(subproblems)@.len() ==> apart(self.sub_box((i, j)), self.sub_box(#[trigger] old(subproblems)@[t])),
            self.family_ok(spots@, old(subproblems)@),
            forall|k: int|
                0 <= k < spots@.len() ==> (flat_anc(self.src.l@, (#[trigger] spots@[k]).0, i as int) <==> flat_anc(
                    self.dst.l@,
                    spots@[k].1,
                    j as int,
                )),
            rect(tdf@, self.n() + 1, self.m() + 1),
            bounded(tdf@, self.n() + self.m()),
            self.fully_settled(tdf@),
            forall|d: int, e: int|
                self.src.l@[i - 1] - 1 <= d <= i && self.dst.l@[j - 1] - 1 <= e <= j ==> #[trigger] fd@[d]@[e]
                    == self.fdist(self.src.l@[i - 1] as int, self.dst.l@[j - 1] as int, d, e, tdf@),
        ensures
            self.spots_ok(placed@.0, final(pairs)@),
            self.layout_ok(placed@.0, final(subproblems)@),
            self.family_ok(placed@.0, final(subproblems)@),
            final(pairs)@.len() == old(pairs)@.len() + placed@.3.len(),
            forall|k: int| 0 <= k < old(pairs)@.len() ==> final(pairs)@[k] == old(pairs)@[k],
            forall|t: int|
                0 <= t < placed@.3.len() ==> call_ensures(
                    self.relabel,
                    (final(pairs)@[old(pairs)@.len() + t].0, final(pairs)@[old(pairs)@.len() + t].1),
                    Some(#[trigger] placed@.3[t]),
                ),
            final(subproblems)@.len() >= old(subproblems)@.len(),
            forall|t: int| 0 <= t < old(subproblems)@.len() ==> final(subproblems)@[t] == old(subproblems)@[t],
            placed@.1 + placed@.2 + price_total(placed@.3) + self.td_total(
                final(subproblems)@.skip(old(subproblems)@.len() as int),
                tdf@,
            ) == tdf@[i as int]@[j as int],
            placed@.1 + placed@.3.len() + self.src_span_total(final(subproblems)@.skip(old(subproblems)@.len() as int)) == i
                - self.src.l@[i - 1] + 1,
            placed@.2 + placed@.3.len() + self.dst_span_total(final(subproblems)@.skip(old(subproblems)@.len() as int)) == j
                - self.dst.l@[j - 1] + 1,
            forall|k: int| 0 <= k < final(subproblems)@.len() ==> 1 <= (#[trigger] final(subproblems)@[k]).0 <= self.n() && 1 <= final(subproblems)@[k].1 <= self.m(),
            forall|k: int| 0 <= k < final(pairs)@.len() ==> self.src.values@.contains((#[trigger] final(pairs)@[k]).0) && self.dst.values@.contains(final(pairs)@[k].1),
            forall|k: int| 0 <= k < final(pairs)@.len() ==> permitted(self.relabel, (#[trigger] final(pairs)@[k]).0, final(pairs)@[k].1),
            weight(final(subproblems)@) < weight(old(subproblems)@) + pow2((i + j) as nat),
    {
        let ghost n = self.n();
        let ghost m = self.m();
        let li = self.src.l[i - 1];
        let lj = self.dst.l[j - 1];
        let mut di = i;
        let mut dj = j;
        proof {
            assert(self.src.l@[i - 1] <= i);
            assert(self.dst.l@[j - 1] <= j);
        }
        let ghost sp0 = spots@;
        let ghost sub0 = old(subproblems)@;
        let ghost p0 = old(pairs)@;
        let ghost region = self.sub_box((i, j));
        let ghost mut sp = spots@;
        let ghost mut dels: int = 0;
        let ghost mut ins: int = 0;
        let ghost mut costs: Seq<u32> = Seq::empty();
        proof {
            assert(self.settled_at(tdf@, i as int, j as int));
            assert(fd@[i as int]@[j as int] == tdf@[i as int]@[j as int]);
            assert(self.table_is_fdist(i as int, j as int, fd@, tdf@)) by {
                reveal(Solver::table_is_fdist);
            }
            assert(subproblems@.skip(sub0.len() as int) =~= Seq::<(usize, usize)>::empty());
            self.lemma_totals_push(Seq::<(usize, usize)>::empty(), (i, j), tdf@);
            reveal(Solver::priced_from);
        }
        while di >= li || dj >= lj
            invariant
                self.ok(),
                n == self.n(),
                m == self.m(),
                1 <= i <= n,
                1 <= j <= m,
                li == self.src.l@[i - 1],
                lj == self.dst.l@[j - 1],
                1 <= li <= i,
                1 <= lj <= j,
                self.table_ok(i as int, j as int, fd@),
                li - 1 <= di <= i,
                lj - 1 <= dj <= j,
                forall|k: int| 0 <= k < subproblems@.len() ==> 1 <= (#[trigger] subproblems@[k]).0 <= n && 1 <= subproblems@[k].1 <= m,
                forall|k: int| 0 <= k < pairs@.len() ==> self.src.values@.contains((#[trigger] pairs@[k]).0) && self.dst.values@.contains(pairs@[k].1),
                forall|k: int| 0 <= k < pairs@.len() ==> permitted(self.relabel, (#[trigger] pairs@[k]).0, pairs@[k].1),
                (di == i && dj == j && subproblems@ == old(subproblems)@) || weight(subproblems@) + pow2((di + dj + 1) as nat) <= weight(old(subproblems)@) + pow2((i + j) as nat),
                sub0 == old(subproblems)@,
                region == self.sub_box((i, j)),
                region == (li as int, i as int, lj as int, j as int),
                sp.len() >= sp0.len(),
                forall|k: int| 0 <= k < sp0.len() ==> sp[k] == sp0[k],
                subproblems@.len() >= sub0.len(),
                forall|t: int| 0 <= t < sub0.len() ==> subproblems@[t] == sub0[t],
                self.spots_ok(sp, pairs@),
                self.layout_ok(sp, subproblems@),
                forall|k: int|
                    sp0.len() <= k < sp.len() ==> within(spot_box(#[trigger] sp[k]), region) && sp[k].0 > di && sp[k].1 > dj,
                forall|t: int|
                    sub0.len() <= t < subproblems@.len() ==> within(self.sub_box(#[trigger] subproblems@[t]), region)
                        && self.sub_box(subproblems@[t]).0 > di && self.sub_box(subproblems@[t]).2 > dj,
                forall|k: int| 0 <= k < sp0.len() ==> apart(region, spot_box(#[trigger] sp0[k])),
                forall|t: int| 0 <= t < sub0.len() ==> apart(region, self.sub_box(#[trigger] sub0[t])),
                self.family_ok(sp, subproblems@),
                forall|k: int|
                    sp0.len() <= k < sp.len() ==> self.src.l@[(#[trigger] sp[k]).0 - 1] == li && self.dst.l@[sp[k].1 - 1]
                        == lj,
                forall|k: int|
                    0 <= k < sp0.len() ==> (flat_anc(self.src.l@, (#[trigger] sp0[k]).0, i as int) <==> flat_anc(
                        self.dst.l@,
                        sp0[k].1,
                        j as int,
                    )),
                rect(tdf@, n + 1, m + 1),
                bounded(tdf@, n + m),
                self.table_is_fdist(i as int, j as int, fd@, tdf@),
                fd@[i as int]@[j as int] == tdf@[i as int]@[j as int],
                p0 == old(pairs)@,
                pairs@.len() == p0.len() + costs.len(),
                forall|k: int| 0 <= k < p0.len() ==> pairs@[k] == p0[k],
                self.priced_from(pairs@, p0.len() as int, costs),
                dels + ins + price_total(costs) + self.td_total(subproblems@.skip(sub0.len() as int), tdf@)
                    + fd@[di as int]@[dj as int] == fd@[i as int]@[j as int],
                dels + costs.len() + self.src_span_total(subproblems@.skip(sub0.len() as int)) + (di - li + 1) == i - li + 1,
                ins + costs.len() + self.dst_span_total(subproblems@.skip(sub0.len() as int)) + (dj - lj + 1) == j - lj + 1,
            decreases di + dj,
        {
            let ghost x = (di + dj) as nat;
            let ghost at_start = di == i && dj == j && subproblems@ == old(subproblems)@;
            proof {
                if di < li {
                    assert(fd@[li - 1]@[dj as int] == fd@[li - 1]@[dj - 1] + 1);
                }
                if dj < lj {
                    assert(fd@[di as int]@[lj - 1] == fd@[di - 1]@[lj - 1] + 1);
                }
            }
            if di >= li && fd[di][dj] == fd[di - 1][dj].saturating_add(1) {
                di = di - 1; // di deleted
                proof {
                    dels = dels + 1;
                    lemma_pow2_monotone((di + dj + 1) as nat, x);
                    lemma_pow2_monotone(x, (i + j) as nat);
                    lemma_pow2_monotone(x, x + 1);
                }
            } else if dj >= lj && fd[di][dj] == fd[di][dj - 1].saturating_add(1) {
                dj = dj - 1; // dj inserted
                proof {
                    ins = ins + 1;
                    lemma_pow2_monotone((di + dj + 1) as nat, x);
                    lemma_pow2_monotone(x, (i + j) as nat);
                    lemma_pow2_monotone(x, x + 1);
                }
            } else if self.src.l[di - 1] == li && self.dst.l[dj - 1] == lj {
                proof {
                    assert(fd@[di as int]@[dj as int] != fd@[di - 1]@[dj as int] + 1);
                    assert(fd@[di as int]@[dj as int] != fd@[di as int]@[dj - 1] + 1);
                    assert(self.src.values@[di - 1] == self.src.values@[di - 1]);
                    assert((exists|c: u32| call_ensures(self.relabel, (self.src.values@[di - 1], self.dst.values@[dj - 1]), Some(c)))
                        && fd@[di as int]@[dj as int] == fd@[di - 1]@[dj - 1] + (choose|c: u32|
                        call_ensures(self.relabel, (self.src.values@[di - 1], self.dst.values@[dj - 1]), Some(c)))) by {
                        reveal(Solver::table_is_fdist);
                        self.lemma_emit_step(li as int, lj as int, di as int, dj as int, fd@, tdf@);
                    }
                }
                let ghost c: u32 = choose|c: u32|
                    call_ensures(self.relabel, (self.src.values@[di - 1], self.dst.values@[dj - 1]), Some(c));
                let pair = (self.src.values[di - 1], self.dst.values[dj - 1]);
                let ghost old_pairs = pairs@;
                pairs.push(pair);
                proof {
                    assert(di >= li && dj >= lj);
                    let spot = (di as int, dj as int);
                    let old_sp = sp;
                    sp = sp.push(spot);
                    assert(within(spot_box(spot), region));
                    assert forall|k: int| 0 <= k < sp.len() implies 1 <= (#[trigger] sp[k]).0 <= self.n() && 1 <= sp[k].1
                        <= self.m() && pairs@[k] == (self.src.values@[sp[k].0 - 1], self.dst.values@[sp[k].1 - 1]) by {
                        if k < old_sp.len() {
                            assert(sp[k] == old_sp[k]);
                            assert(pairs@[k] == old_pairs[k]);
                        }
                    }
                    assert forall|k: int| 0 <= k < old_sp.len() implies 1 <= (#[trigger] old_sp[k]).0 <= self.n() && 1
                        <= old_sp[k].1 <= self.m() by {
                        assert(sp[k] == old_sp[k]);
                    }
                    self.lemma_emit_family(old_sp, subproblems@, sp0, sub0, i as int, j as int, spot);
                    self.lemma_emit(old_sp, subproblems@, sp0, sub0, region, spot);
                    assert forall|k: int| sp0.len() <= k < sp.len() implies self.src.l@[(#[trigger] sp[k]).0 - 1] == li
                        && self.dst.l@[sp[k].1 - 1] == lj by {
                        if k < old_sp.len() {
                            assert(sp[k] == old_sp[k]);
                        }
                    }
                    assert forall|k: int| sp0.len() <= k < sp.len() implies within(spot_box(#[trigger] sp[k]), region)
                        && sp[k].0 > di - 1 && sp[k].1 > dj - 1 by {
                        if k < old_sp.len() {
                            assert(sp[k] == old_sp[k]);
                        }
                    }
                    assert(self.src.values@.contains(pair.0));
                    assert(self.dst.values@.contains(pair.1));
                    assert forall|k: int| 0 <= k < pairs@.len() implies permitted(self.relabel, (#[trigger] pairs@[k]).0, pairs@[k].1) by {
                        if k < old_pairs.len() {
                            assert(pairs@[k] == old_pairs[k]);
                        }
                    }
                    let old_costs = costs;
                    costs = costs.push(c);
                    assert(costs.drop_last() =~= old_costs);
                    assert(self.priced_from(pairs@, p0.len() as int, costs)) by {
                        reveal(Solver::priced_from);
                        assert forall|t: int|
                            0 <= t < costs.len() implies call_ensures(
                            self.relabel,
                            (pairs@[p0.len() + t].0, pairs@[p0.len() + t].1),
                            Some(#[trigger] costs[t]),
                        ) by {
                            if t < old_costs.len() {
                                assert(pairs@[p0.len() + t] == old_pairs[p0.len() + t]);
                                assert(costs[t] == old_costs[t]);
                            }
                        }
                    }
                    assert forall|k: int| 0 <= k < p0.len() implies pairs@[k] == p0[k] by {
                        assert(pairs@[k] == old_pairs[k]);
                    }
                }
                di = di - 1;
                dj = dj - 1;
                proof {
                    lemma_pow2_monotone((di + dj + 1) as nat, x);
                    lemma_pow2_monotone(x, (i + j) as nat);
                    lemma_pow2_monotone(x, x + 1);
                }
            } else {
                proof {
                    assert(!at_start);
                    let ls = self.src.l@[di - 1] as int;
                    let ld = self.dst.l@[dj - 1] as int;
                    assert(li <= ls <= di);
                    assert(lj <= ld <= dj);
                }
                let ghost before_push = subproblems@;
                subproblems.push((di, dj));
                proof {
                    assert(subproblems@.drop_last() == before_push);
                    assert(weight(subproblems@) == weight(before_push) + pow2(x));
                    assert(di >= li && dj >= lj);
                    let sub = self.sub_box((di, dj));
                    assert(self.src.l@[i - 1] <= self.src.l@[di - 1]);
                    assert(self.dst.l@[j - 1] <= self.dst.l@[dj - 1]);
                    assert(within(sub, region));
                    self.lemma_push(sp, before_push, sp0, sub0, region, (di, dj));
                    self.lemma_push_family(sp, before_push, sp0, i as int, j as int, (di, dj));
                    let k0 = sub0.len() as int;
                    assert(subproblems@.skip(k0) =~= before_push.skip(k0).push((di, dj)));
                    self.lemma_totals_push(before_push.skip(k0), (di, dj), tdf@);
                    assert(fd@[di as int]@[dj as int] == fd@[self.src.l@[di - 1] - 1]@[self.dst.l@[dj - 1] - 1]
                        + tdf@[di as int]@[dj as int]) by {
                        reveal(Solver::table_is_fdist);
                        self.lemma_close_step(li as int, lj as int, di as int, dj as int, fd@, tdf@);
                    }
                    assert forall|t: int|
                        sub0.len() <= t < subproblems@.len() implies within(self.sub_box(#[trigger] subproblems@[t]), region)
                            && self.sub_box(subproblems@[t]).0 > self.src.l@[di - 1] - 1 && self.sub_box(subproblems@[t]).2
                            > self.dst.l@[dj - 1] - 1 by {
                        if t < before_push.len() {
                            assert(subproblems@[t] == before_push[t]);
                        }
                    }
                }
                di = self.src.l[di - 1] - 1;
                dj = self.dst.l[dj - 1] - 1;
                proof {
                    assert(di + dj + 2 <= x);
                    lemma_pow2_monotone((di + dj + 1) as nat, (x - 1) as nat);
                    assert(pow2(x + 1) == 2 * pow2(x));
                    assert(pow2(x) == 2 * pow2((x - 1) as nat));
                }
            }
        }
        proof {
            lemma_pow2_monotone(0, (di + dj + 1) as nat);
            assert(fd@[li - 1]@[lj - 1] == 0);
            reveal(Solver::priced_from);
        }
        Ghost((sp, dels, ins, costs))
    }

    /// Every entry of the forest table for the subproblem (i, j) is the
    /// forest distance over the settled DP table `td`.
    #[verifier::opaque]
    spec fn table_is_fdist(&self, i: int, j: int, fd: Seq<Vec<u32>>, td: Seq<Vec<u32>>) -> bool {
        forall|d: int, e: int|
            self.src.l@[i - 1] - 1 <= d <= i && self.dst.l@[j - 1] - 1 <= e <= j ==> #[trigger] fd[d]@[e] == self.fdist(
                self.src.l@[i - 1] as int,
                self.dst.l@[j - 1] as int,
                d,
                e,
                td,
            )
    }

    /// `costs` prices the pairs from index `from` on, one each, as
    /// `relabel` answers.
    #[verifier::opaque]
    spec fn priced_from(&self, pairs: Seq<(T, T)>, from: int, costs: Seq<u32>) -> bool {
        &&& pairs.len() == from + costs.len()
        &&& forall|t: int|
            0 <= t < costs.len() ==> call_ensures(self.relabel, (pairs[from + t].0, pairs[from + t].1), Some(#[trigger] costs[t]))
    }

    /// Every entry of `td` holds its subtree pair's distance.
    spec fn fully_settled(&self, td: Seq<Vec<u32>>) -> bool {
        forall|d: int, e: int| 1 <= d <= self.n() && 1 <= e <= self.m() ==> #[trigger] self.settled_at(td, d, e)
    }

    /// The distances of the pending subproblems, read off `td`.
    #[verifier::opaque]
    spec fn td_total(&self, subs: Seq<(usize, usize)>, td: Seq<Vec<u32>>) -> int
        decreases subs.len(),
    {
        if subs.len() == 0 {
            0
        } else {
            self.td_total(subs.drop_last(), td) + td[subs.last().0 as int]@[subs.last().1 as int]
        }
    }

    /// The src nodes the pending subproblems cover.
    #[verifier::opaque]
    spec fn src_span_total(&self, subs: Seq<(usize, usize)>) -> int
        decreases subs.len(),
    {
        if subs.len() == 0 {
            0
        } else {
            self.src_span_total(subs.drop_last()) + (subs.last().0 - self.src.l@[subs.last().0 - 1] + 1)
        }
    }

    /// The dst nodes the pending subproblems cover.
    #[verifier::opaque]
    spec fn dst_span_total(&self, subs: Seq<(usize, usize)>) -> int
        decreases subs.len(),
    {
        if subs.len() == 0 {
            0
        } else {
            self.dst_span_total(subs.drop_last()) + (subs.last().1 - self.dst.l@[subs.last().1 - 1] + 1)
        }
    }

    proof fn lemma_totals_concat(&self, a: Seq<(usize, usize)>, b: Seq<(usize, usize)>, td: Seq<Vec<u32>>)
        ensures
            self.td_total(a + b, td) == self.td_total(a, td) + self.td_total(b, td),
            self.src_span_total(a + b) == self.src_span_total(a) + self.src_span_total(b),
            self.dst_span_total(a + b) == self.dst_span_total(a) + self.dst_span_total(b),
        decreases b.len(),
    {
        reveal(Solver::td_total);
        reveal(Solver::src_span_total);
        reveal(Solver::dst_span_total);
        if b.len() == 0 {
            assert(a + b =~= a);
        } else {
            self.lemma_totals_concat(a, b.drop_last(), td);
            assert((a + b).drop_last() =~= a + b.drop_last());
        }
    }

    /// The totals of no subproblems, and of one more.
    proof fn lemma_totals_push(&self, a: Seq<(usize, usize)>, x: (usize, usize), td: Seq<Vec<u32>>)
        ensures
            self.td_total(Seq::<(usize, usize)>::empty(), td) == 0,
            self.src_span_total(Seq::<(usize, usize)>::empty()) == 0,
            self.dst_span_total(Seq::<(usize, usize)>::empty()) == 0,
            self.td_total(a.push(x), td) == self.td_total(a, td) + td[x.0 as int]@[x.1 as int],
            self.src_span_total(a.push(x)) == self.src_span_total(a) + (x.0 - self.src.l@[x.0 - 1] + 1),
            self.dst_span_total(a.push(x)) == self.dst_span_total(a) + (x.1 - self.dst.l@[x.1 - 1] + 1),
    {
        reveal(Solver::td_total);
        reveal(Solver::src_span_total);
        reveal(Solver::dst_span_total);
        assert(a.push(x).drop_last() =~= a);
    }

    /// Recomputing a subproblem's table over a settled DP table gives the
    /// settled distances back and leaves the DP table as it was.
    proof fn lemma_recompute(
        &self,
        i: int,
        j: int,
        tdf: Seq<Vec<u32>>,
        td0: Seq<Vec<u32>>,
        td1: Seq<Vec<u32>>,
        fd: Seq<Vec<u32>>,
    )
        requires
            self.ok(),
            1 <= i <= self.n(),
            1 <= j <= self.m(),
            self.fully_settled(tdf),
            forall|d: int, e: int| 0 <= d <= self.n() && 0 <= e <= self.m() ==> #[trigger] td0[d]@[e] == tdf[d]@[e],
            forall|d: int, e: int|
                self.src.l@[i - 1] - 1 <= d <= i && self.dst.l@[j - 1] - 1 <= e <= j ==> #[trigger] fd[d]@[e]
                    == self.fdist(self.src.l@[i - 1] as int, self.dst.l@[j - 1] as int, d, e, td0),
            forall|d: int, e: int|
                0 <= d <= self.n() && 0 <= e <= self.m() ==> #[trigger] td1[d]@[e] == if self.src.l@[i - 1] <= d <= i
                    && self.dst.l@[j - 1] <= e <= j && self.src.l@[d - 1] == self.src.l@[i - 1] && self.dst.l@[e - 1]
                    == self.dst.l@[j - 1] {
                    fd[d]@[e]
                } else {
                    td0[d]@[e]
                },
        ensures
            forall|d: int, e: int| 0 <= d <= self.n() && 0 <= e <= self.m() ==> #[trigger] td1[d]@[e] == tdf[d]@[e],
            forall|d: int, e: int|
                self.src.l@[i - 1] - 1 <= d <= i && self.dst.l@[j - 1] - 1 <= e <= j ==> #[trigger] fd[d]@[e]
                    == self.fdist(self.src.l@[i - 1] as int, self.dst.l@[j - 1] as int, d, e, tdf),
    {
        let li = self.src.l@[i - 1] as int;
        let lj = self.dst.l@[j - 1] as int;
        assert(li <= i && lj <= j);
        assert forall|d: int, e: int| li - 1 <= d <= i && lj - 1 <= e <= j implies #[trigger] fd[d]@[e] == self.fdist(
            li,
            lj,
            d,
            e,
            tdf,
        ) by {
            assert forall|d2: int, e2: int|
                li <= d2 <= d && lj <= e2 <= e && !(self.src.l@[d2 - 1] == li && self.dst.l@[e2 - 1] == lj) implies #[trigger] td0[d2]@[e2]
                    == tdf[d2]@[e2] by {}
            self.lemma_fdist_frame(li, lj, d, e, td0, tdf);
        }
        assert forall|d: int, e: int| 0 <= d <= self.n() && 0 <= e <= self.m() implies #[trigger] td1[d]@[e] == tdf[d]@[e] by {
            if li <= d <= i && lj <= e <= j && self.src.l@[d - 1] == li && self.dst.l@[e - 1] == lj {
                assert(fd[d]@[e] == self.fdist(li, lj, d, e, tdf));
                assert(self.settled_at(tdf, d, e));
            }
        }
    }

    /// Entry (d, e) of `td` holds the distance of its subtree pair.
    spec fn settled_at(&self, td: Seq<Vec<u32>>, d: int, e: int) -> bool {
        td[d]@[e] == self.fdist(self.src.l@[d - 1] as int, self.dst.l@[e - 1] as int, d, e, td)
    }

    spec fn src_cut(&self, a: int) -> int {
        if a < self.src.keyroots@.len() {
            self.src.keyroots@[a] as int
        } else {
            self.n() + 1
        }
    }

    spec fn dst_cut(&self, b: int) -> int {
        if b < self.dst.keyroots@.len() {
            self.dst.keyroots@[b] as int
        } else {
            self.m() + 1
        }
    }

    /// The DP has closed (d, e) once it has run the keyroot pair that
    /// owns it: pairs run src keyroot by src keyroot, dst keyroots inner.
    spec fn done_before(&self, a: int, b: int, d: int, e: int) -> bool {
        let rd = root_of(self.src.l@, d);
        let re = root_of(self.dst.l@, e);
        rd < self.src_cut(a) || (rd == self.src_cut(a) && re < self.dst_cut(b))
    }

    /// Every entry the DP has closed holds its distance.
    spec fn settled_upto(&self, td: Seq<Vec<u32>>, a: int, b: int) -> bool {
        forall|d: int, e: int|
            1 <= d <= self.n() && 1 <= e <= self.m() && self.done_before(a, b, d, e) ==> #[trigger] self.settled_at(td, d, e)
    }

    /// The two trees are one: equal values and shapes, and every node
    /// prices at 0 against itself.
    spec fn identical(&self) -> bool {
        &&& self.src.values@ == self.dst.values@
        &&& self.src.l@ == self.dst.l@
        &&& forall|d: int| 1 <= d <= self.n() ==> #[trigger] self.cost_at(d, d) == 0
    }

    /// The two trees have one shape: the same leftmost-leaf layout, so
    /// post-order position `p` of one corresponds to `p` of the other.
    spec fn same_shape(&self) -> bool {
        self.src.l@ == self.dst.l@
    }

    /// What relabeling each of positions `li..=d` into the same position
    /// of the other tree costs in all.
    spec fn diag_total(&self, li: int, d: int) -> int
        decreases d - li + 1,
    {
        if d < li {
            0
        } else {
            self.diag_total(li, d - 1) + self.cost_at(d, d)
        }
    }

    proof fn lemma_diag_split(&self, li: int, k: int, d: int)
        requires
            li - 1 <= k <= d,
        ensures
            self.diag_total(li, d) == self.diag_total(li, k) + self.diag_total(k + 1, d),
        decreases d - k,
    {
        if d > k {
            self.lemma_diag_split(li, k, d - 1);
        }
    }

    /// The diagonal prices, read off the answers `relabel` gives.
    proof fn lemma_diag_prices(&self, d: int, costs: Seq<u32>)
        requires
            self.ok(),
            0 <= d <= self.n(),
            d <= self.m(),
            costs.len() >= d,
            forall|k: int|
                0 <= k < d ==> call_ensures(
                    self.relabel,
                    (self.src.values@[k], self.dst.values@[k]),
                    Some(#[trigger] costs[k]),
                ),
        ensures
            self.diag_total(1, d) == price_total(costs.subrange(0, d)),
        decreases d,
    {
        if d > 0 {
            self.lemma_diag_prices(d - 1, costs);
            self.lemma_cost_at(d, d, Some(costs[d - 1]));
            assert(costs.subrange(0, d).drop_last() =~= costs.subrange(0, d - 1));
        }
    }

    /// Between two forests of one shape, positions `li..=d` of each, all
    /// inside the subtree whose leftmost leaf is `li`, the distance over
    /// settled subtree distances is at most relabeling every node into
    /// its counterpart.
    proof fn lemma_same_shape_fdist(&self, li: int, d: int, td: Seq<Vec<u32>>)
        requires
            self.ok(),
            self.same_shape(),
            1 <= li,
            d <= self.n(),
            forall|p: int| li <= p <= d ==> li <= #[trigger] self.src.l@[p - 1],
            forall|p: int| 1 <= p <= self.n() ==> #[trigger] self.settled_at(td, p, p),
        ensures
            self.fdist(li, li, d, d, td) <= self.diag_total(li, d),
        decreases d, d - li,
    {
        reveal(Solver::fdist);
        if d + d <= 0 || d < li {
        } else {
            let sl = self.src.l@[d - 1] as int;
            assert(self.dst.l@[d - 1] as int == sl);
            assert(1 <= sl <= d);
            if sl == li {
                self.lemma_same_shape_fdist(li, d - 1, td);
            } else {
                self.lemma_same_shape_fdist(li, sl - 1, td);
                assert forall|p: int| sl <= p <= d implies sl <= #[trigger] self.src.l@[p - 1] by {
                    assert(self.src.l@[d - 1] - 1 <= p - 1 <= d - 1);
                }
                self.lemma_same_shape_fdist(sl, d, td);
                assert(self.settled_at(td, d, d));
                self.lemma_diag_split(li, sl - 1, d);
            }
        }
    }

    /// What a mapping given as 1-based pairs costs on src positions
    /// `li..=d`: its partner's price for each matched position, one for
    /// each unmatched (deleted) one.
    spec fn src_sum(&self, mp: Seq<(int, int)>, li: int, d: int) -> int
        decreases d - li + 1,
    {
        if d < li {
            0
        } else {
            self.src_sum(mp, li, d - 1) + if partner_src(mp, d) == 0 {
                1int
            } else {
                self.cost_at(d, partner_src(mp, d))
            }
        }
    }

    /// What the mapping costs on dst positions `lj..=e`: one for each
    /// unmatched (inserted) position.
    spec fn dst_sum(&self, mp: Seq<(int, int)>, lj: int, e: int) -> int
        decreases e - lj + 1,
    {
        if e < lj {
            0
        } else {
            self.dst_sum(mp, lj, e - 1) + if partner_dst(mp, e) == 0 {
                1int
            } else {
                0int
            }
        }
    }

    proof fn lemma_src_sum_split(&self, mp: Seq<(int, int)>, li: int, k: int, d: int)
        requires
            li - 1 <= k <= d,
        ensures
            self.src_sum(mp, li, d) == self.src_sum(mp, li, k) + self.src_sum(mp, k + 1, d),
        decreases d - k,
    {
        if d > k {
            self.lemma_src_sum_split(mp, li, k, d - 1);
        }
    }

    proof fn lemma_dst_sum_split(&self, mp: Seq<(int, int)>, lj: int, k: int, e: int)
        requires
            lj - 1 <= k <= e,
        ensures
            self.dst_sum(mp, lj, e) == self.dst_sum(mp, lj, k) + self.dst_sum(mp, k + 1, e),
        decreases e - k,
    {
        if e > k {
            self.lemma_dst_sum_split(mp, lj, k, e - 1);
        }
    }

    /// The mapping agrees on ancestry: one pair's src position is a proper
    /// ancestor of another's exactly when its dst position is.
    spec fn pairs_agree(&self, mp: Seq<(int, int)>) -> bool {
        forall|k1: int, k2: int|
            0 <= k1 < mp.len() && 0 <= k2 < mp.len() ==> (flat_anc(
                self.src.l@,
                (#[trigger] mp[k1]).0,
                (#[trigger] mp[k2]).0,
            ) <==> flat_anc(self.dst.l@, mp[k1].1, mp[k2].1))
    }

    /// Every pair touching src `li..=d` or dst `lj..=e` lies inside both.
    spec fn closed_on(&self, mp: Seq<(int, int)>, li: int, lj: int, d: int, e: int) -> bool {
        &&& forall|i: int| li <= i <= d && #[trigger] partner_src(mp, i) != 0 ==> lj <= partner_src(mp, i) <= e
        &&& forall|j: int| lj <= j <= e && #[trigger] partner_dst(mp, j) != 0 ==> li <= partner_dst(mp, j) <= d
    }

    /// The forest distance is at most what any mapping closed on the two
    /// forests costs there: the DP never misses a cheaper mapping.
    proof fn lemma_fdist_lower(&self, mp: Seq<(int, int)>, li: int, lj: int, d: int, e: int, td: Seq<Vec<u32>>)
        requires
            self.ok(),
            self.fully_settled(td),
            pairs_ordered(mp, self.n(), self.m()),
            self.pairs_agree(mp),
            1 <= li,
            1 <= lj,
            li - 1 <= d <= self.n(),
            lj - 1 <= e <= self.m(),
            forall|p: int| li <= p <= d ==> li <= #[trigger] self.src.l@[p - 1],
            forall|q: int| lj <= q <= e ==> lj <= #[trigger] self.dst.l@[q - 1],
            self.closed_on(mp, li, lj, d, e),
        ensures
            self.fdist(li, lj, d, e, td) <= self.src_sum(mp, li, d) + self.dst_sum(mp, lj, e),
        decreases d + e, d - li + e - lj + 2,
    {
        reveal(Solver::fdist);
        if d + e <= 0 || (d < li && e < lj) {
        } else if d < li {
            let kk = lemma_partner_dst(mp, e);
            assert(partner_dst(mp, e) == 0);
            self.lemma_fdist_lower(mp, li, lj, d, e - 1, td);
        } else if e < lj {
            let kk = lemma_partner_src(mp, d);
            assert(partner_src(mp, d) == 0);
            self.lemma_fdist_lower(mp, li, lj, d - 1, e, td);
        } else if partner_src(mp, d) == 0 {
            let k0 = lemma_partner_src(mp, d);
            assert forall|j: int| lj <= j <= e && #[trigger] partner_dst(mp, j) != 0 implies li <= partner_dst(
                mp,
                j,
            ) <= d - 1 by {
                let k = lemma_partner_dst(mp, j);
                assert(mp[k].0 != d);
            }
            self.lemma_fdist_lower(mp, li, lj, d - 1, e, td);
        } else if partner_dst(mp, e) == 0 {
            let k0 = lemma_partner_dst(mp, e);
            assert forall|i: int| li <= i <= d && #[trigger] partner_src(mp, i) != 0 implies lj <= partner_src(
                mp,
                i,
            ) <= e - 1 by {
                let k = lemma_partner_src(mp, i);
                assert(mp[k].1 != e);
            }
            self.lemma_fdist_lower(mp, li, lj, d, e - 1, td);
        } else {
            let k1 = lemma_partner_src(mp, d);
            let k2 = lemma_partner_dst(mp, e);
            if k1 != k2 {
                assert(mp[k1].0 == d && mp[k2].1 == e);
                assert(false);
            }
            assert(partner_src(mp, d) == e);
            let sl = self.src.l@[d - 1] as int;
            let dl = self.dst.l@[e - 1] as int;
            if sl == li && dl == lj {
                assert forall|i: int| li <= i <= d - 1 && #[trigger] partner_src(mp, i) != 0 implies lj
                    <= partner_src(mp, i) <= e - 1 by {
                    let k = lemma_partner_src(mp, i);
                    assert(k != k1);
                }
                assert forall|j: int| lj <= j <= e - 1 && #[trigger] partner_dst(mp, j) != 0 implies li
                    <= partner_dst(mp, j) <= d - 1 by {
                    let k = lemma_partner_dst(mp, j);
                    assert(k != k1);
                }
                self.lemma_fdist_lower(mp, li, lj, d - 1, e - 1, td);
            } else {
                assert(li <= sl <= d);
                assert(lj <= dl <= e);
                assert(self.settled_at(td, d, e));
                assert forall|i: int| li <= i <= sl - 1 && #[trigger] partner_src(mp, i) != 0 implies lj
                    <= partner_src(mp, i) <= dl - 1 by {
                    let k = lemma_partner_src(mp, i);
                    assert(k != k1);
                    assert(flat_anc(self.src.l@, mp[k1].0, mp[k].0) <==> flat_anc(self.dst.l@, mp[k1].1, mp[k].1));
                }
                assert forall|j: int| lj <= j <= dl - 1 && #[trigger] partner_dst(mp, j) != 0 implies li
                    <= partner_dst(mp, j) <= sl - 1 by {
                    let k = lemma_partner_dst(mp, j);
                    assert(k != k1);
                    assert(flat_anc(self.src.l@, mp[k1].0, mp[k].0) <==> flat_anc(self.dst.l@, mp[k1].1, mp[k].1));
                }
                self.lemma_fdist_lower(mp, li, lj, sl - 1, dl - 1, td);
                assert forall|i: int| sl <= i <= d && #[trigger] partner_src(mp, i) != 0 implies dl
                    <= partner_src(mp, i) <= e by {
                    let k = lemma_partner_src(mp, i);
                    if k != k1 {
                        assert(flat_anc(self.src.l@, mp[k1].0, mp[k].0) <==> flat_anc(self.dst.l@, mp[k1].1, mp[k].1));
                    }
                }
                assert forall|j: int| dl <= j <= e && #[trigger] partner_dst(mp, j) != 0 implies sl
                    <= partner_dst(mp, j) <= d by {
                    let k = lemma_partner_dst(mp, j);
                    if k != k1 {
                        assert(flat_anc(self.src.l@, mp[k1].0, mp[k].0) <==> flat_anc(self.dst.l@, mp[k1].1, mp[k].1));
                    }
                }
                assert forall|p: int| sl <= p <= d implies sl <= #[trigger] self.src.l@[p - 1] by {
                    assert(self.src.l@[d - 1] - 1 <= p - 1 <= d - 1);
                }
                assert forall|q: int| dl <= q <= e implies dl <= #[trigger] self.dst.l@[q - 1] by {
                    assert(self.dst.l@[e - 1] - 1 <= q - 1 <= e - 1);
                }
                self.lemma_fdist_lower(mp, sl, dl, d, e, td);
                self.lemma_src_sum_split(mp, li, sl - 1, d);
                self.lemma_dst_sum_split(mp, lj, dl - 1, e);
            }
        }
    }

    /// The prices of the pairs' positions, in all.
    spec fn pair_cost(&self, mp: Seq<(int, int)>) -> int
        decreases mp.len(),
    {
        if mp.len() == 0 {
            0
        } else {
            self.pair_cost(mp.drop_last()) + self.cost_at(mp.last().0, mp.last().1)
        }
    }

    proof fn lemma_sums_unmatched(&self, li: int, d: int)
        requires
            li - 1 <= d,
        ensures
            self.src_sum(Seq::<(int, int)>::empty(), li, d) == d - li + 1,
            self.dst_sum(Seq::<(int, int)>::empty(), li, d) == d - li + 1,
        decreases d - li + 1,
    {
        if d >= li {
            self.lemma_sums_unmatched(li, d - 1);
        }
    }

    /// Taking the last pair away unmatches its two positions and nothing
    /// else.
    proof fn lemma_sums_drop(&self, mp: Seq<(int, int)>, li: int, d: int)
        requires
            mp.len() > 0,
            mp.last().0 != 0,
            mp.last().1 != 0,
            partner_src(mp.drop_last(), mp.last().0) == 0,
            partner_dst(mp.drop_last(), mp.last().1) == 0,
        ensures
            self.src_sum(mp, li, d) == self.src_sum(mp.drop_last(), li, d) + if li <= mp.last().0 <= d {
                self.cost_at(mp.last().0, mp.last().1) - 1
            } else {
                0
            },
            self.dst_sum(mp, li, d) == self.dst_sum(mp.drop_last(), li, d) - if li <= mp.last().1 <= d {
                1int
            } else {
                0
            },
        decreases d - li + 1,
    {
        if d >= li {
            self.lemma_sums_drop(mp, li, d - 1);
        }
    }

    /// Over the whole trees a mapping costs its pairs' prices plus one
    /// for each unmatched node on either side.
    proof fn lemma_sums_count(&self, mp: Seq<(int, int)>)
        requires
            pairs_ordered(mp, self.n(), self.m()),
            0 <= self.n(),
            0 <= self.m(),
        ensures
            self.src_sum(mp, 1, self.n()) == self.n() - mp.len() + self.pair_cost(mp),
            self.dst_sum(mp, 1, self.m()) == self.m() - mp.len(),
        decreases mp.len(),
    {
        if mp.len() == 0 {
            assert(mp =~= Seq::<(int, int)>::empty());
            self.lemma_sums_unmatched(1, self.n());
            self.lemma_sums_unmatched(1, self.m());
        } else {
            let rest = mp.drop_last();
            let last = (mp.len() - 1) as int;
            lemma_pairs_ordered_prefix(mp, self.n(), self.m());
            self.lemma_sums_count(rest);
            let ks = lemma_partner_src(rest, mp.last().0);
            if partner_src(rest, mp.last().0) != 0 {
                assert(rest[ks] == mp[ks]);
                assert(mp[ks].0 == mp[last].0);
                assert(false);
            }
            let kd = lemma_partner_dst(rest, mp.last().1);
            if partner_dst(rest, mp.last().1) != 0 {
                assert(rest[kd] == mp[kd]);
                assert(mp[kd].1 == mp[last].1);
                assert(false);
            }
            assert(mp[last] == mp.last());
            self.lemma_sums_drop(mp, 1, self.n());
            self.lemma_sums_drop(mp, 1, self.m());
        }
    }

    /// A mapping's pair prices are what `relabel` answers for its pairs.
    proof fn lemma_pair_prices(&self, mp: Seq<(int, int)>, costs: Seq<u32>)
        requires
            self.ok(),
            pairs_ordered(mp, self.n(), self.m()),
            costs.len() == mp.len(),
            forall|k: int|
                0 <= k < mp.len() ==> call_ensures(
                    self.relabel,
                    (self.src.values@[mp[k].0 - 1], self.dst.values@[mp[k].1 - 1]),
                    Some(#[trigger] costs[k]),
                ),
        ensures
            self.pair_cost(mp) == price_total(costs),
        decreases mp.len(),
    {
        if mp.len() > 0 {
            let last = (mp.len() - 1) as int;
            lemma_pairs_ordered_prefix(mp, self.n(), self.m());
            let rest = mp.drop_last();
            assert forall|k: int| 0 <= k < rest.len() implies call_ensures(
                self.relabel,
                (self.src.values@[rest[k].0 - 1], self.dst.values@[rest[k].1 - 1]),
                Some(#[trigger] costs.drop_last()[k]),
            ) by {
                assert(rest[k] == mp[k]);
                assert(costs.drop_last()[k] == costs[k]);
            }
            self.lemma_pair_prices(rest, costs.drop_last());
            assert(mp[last] == mp.last());
            assert(call_ensures(
                self.relabel,
                (self.src.values@[mp[last].0 - 1], self.dst.values@[mp[last].1 - 1]),
                Some(costs[last]),
            ));
            self.lemma_cost_at(mp.last().0, mp.last().1, Some(costs[last]));
        }
    }

    /// Forest distances are never negative.
    proof fn lemma_fdist_nonneg(&self, li: int, lj: int, d: int, e: int, td: Seq<Vec<u32>>)
        ensures
            self.fdist(li, lj, d, e, td) >= 0,
        decreases d + e + 2,
    {
        reveal(Solver::fdist);
        if d + e <= 0 || (d < li && e < lj) {
        } else if d < li {
            self.lemma_fdist_nonneg(li, lj, d, e - 1, td);
        } else if e < lj {
            self.lemma_fdist_nonneg(li, lj, d - 1, e, td);
        } else {
            self.lemma_fdist_nonneg(li, lj, d - 1, e, td);
            self.lemma_fdist_nonneg(li, lj, d, e - 1, td);
            let sl = self.src.l@[d - 1] as int;
            let dl = self.dst.l@[e - 1] as int;
            if sl == li && dl == lj {
                self.lemma_fdist_nonneg(li, lj, d - 1, e - 1, td);
            } else if 1 <= sl <= d && 1 <= dl <= e {
                self.lemma_fdist_nonneg(li, lj, sl - 1, dl - 1, td);
            }
        }
    }

    /// Between two copies of one forest — positions `li..=d` of one
    /// tree, all inside the subtree whose leftmost leaf is `li` — the
    /// distance over settled subtree distances is 0.
    proof fn lemma_identical_fdist(&self, li: int, d: int, td: Seq<Vec<u32>>)
        requires
            self.ok(),
            self.identical(),
            1 <= li,
            d <= self.n(),
            forall|p: int| li <= p <= d ==> li <= #[trigger] self.src.l@[p - 1],
            forall|p: int| 1 <= p <= self.n() ==> #[trigger] self.settled_at(td, p, p),
        ensures
            self.fdist(li, li, d, d, td) == 0,
        decreases d, d - li,
    {
        reveal(Solver::fdist);
        if d + d <= 0 || d < li {
        } else {
            let sl = self.src.l@[d - 1] as int;
            assert(self.dst.l@[d - 1] as int == sl);
            assert(1 <= sl <= d);
            self.lemma_fdist_nonneg(li, li, d - 1, d, td);
            self.lemma_fdist_nonneg(li, li, d, d - 1, td);
            if sl == li {
                self.lemma_identical_fdist(li, d - 1, td);
                assert(self.cost_at(d, d) == 0);
            } else {
                self.lemma_identical_fdist(li, sl - 1, td);
                assert forall|p: int| sl <= p <= d implies sl <= #[trigger] self.src.l@[p - 1] by {
                    assert(self.src.l@[d - 1] - 1 <= p - 1 <= d - 1);
                }
                self.lemma_identical_fdist(sl, d, td);
                assert(self.settled_at(td, d, d));
            }
        }
    }

    /// A keyroot before the next cut is at most the current one.
    proof fn lemma_cut_step(&self, a: int, b: int)
        requires
            self.ok(),
            0 <= a < self.src.keyroots@.len(),
            0 <= b < self.dst.keyroots@.len(),
        ensures
            forall|k: int| #[trigger] is_keyroot(self.src.l@, k) ==> (k < self.src_cut(a + 1) <==> k <= self.src_cut(a)),
            forall|k: int| #[trigger] is_keyroot(self.dst.l@, k) ==> (k < self.dst_cut(b + 1) <==> k <= self.dst_cut(b)),
            forall|k: int| #[trigger] is_keyroot(self.src.l@, k) ==> self.src_cut(0) <= k,
            forall|k: int| #[trigger] is_keyroot(self.dst.l@, k) ==> self.dst_cut(0) <= k,
    {
        let ks = self.src.keyroots@;
        let kd = self.dst.keyroots@;
        assert forall|k: int| #[trigger] is_keyroot(self.src.l@, k) implies (k < self.src_cut(a + 1) <==> k <= self.src_cut(a))
            && self.src_cut(0) <= k by {
            assert(ks.contains(k as usize));
            let t = choose|t: int| 0 <= t < ks.len() && ks[t] == k as usize;
            if t < a {
                assert(ks[t] < ks[a]);
            } else if t > a {
                assert(ks[a] < ks[t]);
                if a + 1 < ks.len() && t > a + 1 {
                    assert(ks[a + 1] < ks[t]);
                }
            }
            if t > 0 {
                assert(ks[0] < ks[t]);
            }
        }
        assert forall|k: int| #[trigger] is_keyroot(self.dst.l@, k) implies (k < self.dst_cut(b + 1) <==> k <= self.dst_cut(b))
            && self.dst_cut(0) <= k by {
            assert(kd.contains(k as usize));
            let t = choose|t: int| 0 <= t < kd.len() && kd[t] == k as usize;
            if t < b {
                assert(kd[t] < kd[b]);
            } else if t > b {
                assert(kd[b] < kd[t]);
                if b + 1 < kd.len() && t > b + 1 {
                    assert(kd[b + 1] < kd[t]);
                }
            }
            if t > 0 {
                assert(kd[0] < kd[t]);
            }
        }
    }

    /// Running the keyroot pair (a, b) settles the entries it owns and
    /// leaves the settled ones settled.
    proof fn lemma_dp_step(&self, a: int, b: int, td0: Seq<Vec<u32>>, td1: Seq<Vec<u32>>, fd: Seq<Vec<u32>>)
        requires
            self.ok(),
            0 <= a < self.src.keyroots@.len(),
            0 <= b < self.dst.keyroots@.len(),
            rect(td0, self.n() + 1, self.m() + 1),
            rect(td1, self.n() + 1, self.m() + 1),
            self.settled_upto(td0, a, b),
            ({
                let i = self.src.keyroots@[a] as int;
                let j = self.dst.keyroots@[b] as int;
                &&& forall|d: int, e: int|
                    self.src.l@[i - 1] - 1 <= d <= i && self.dst.l@[j - 1] - 1 <= e <= j ==> #[trigger] fd[d]@[e]
                        == self.fdist(self.src.l@[i - 1] as int, self.dst.l@[j - 1] as int, d, e, td0)
                &&& forall|d: int, e: int|
                    0 <= d <= self.n() && 0 <= e <= self.m() ==> #[trigger] td1[d]@[e] == if self.src.l@[i - 1] <= d <= i
                        && self.dst.l@[j - 1] <= e <= j && self.src.l@[d - 1] == self.src.l@[i - 1] && self.dst.l@[e - 1]
                        == self.dst.l@[j - 1] {
                        fd[d]@[e]
                    } else {
                        td0[d]@[e]
                    }
            }),
        ensures
            self.settled_upto(td1, a, b + 1),
    {
        let sl = self.src.l@;
        let dl = self.dst.l@;
        let i = self.src.keyroots@[a] as int;
        let j = self.dst.keyroots@[b] as int;
        assert(is_keyroot(sl, i));
        assert(is_keyroot(dl, j));
        self.lemma_cut_step(a, b);
        assert forall|d: int, e: int|
            1 <= d <= self.n() && 1 <= e <= self.m() && self.done_before(a, b + 1, d, e) implies #[trigger] self.settled_at(
            td1,
            d,
            e,
        ) by {
            lemma_root_of(sl, d);
            lemma_root_of(dl, e);
            let rd = root_of(sl, d);
            let re = root_of(dl, e);
            let li = sl[d - 1] as int;
            let lj = dl[e - 1] as int;
            assert(li <= d && lj <= e);
            if rd == i && re == j {
                // Newly closed: on both leftmost paths of (i, j).
                assert(sl[i - 1] == sl[d - 1]);
                assert(dl[j - 1] == dl[e - 1]);
                assert(td1[d]@[e] == fd[d]@[e]);
                assert forall|d2: int, e2: int|
                    li <= d2 <= d && lj <= e2 <= e && !(sl[d2 - 1] == li && dl[e2 - 1] == lj) implies #[trigger] td0[d2]@[e2]
                        == td1[d2]@[e2] by {
                    assert(d <= i);
                    assert(e <= j);
                }
                self.lemma_fdist_frame(li, lj, d, e, td0, td1);
            } else {
                // Closed before: untouched, and so is all it reads.
                assert(self.done_before(a, b, d, e));
                assert(self.settled_at(td0, d, e));
                if sl[d - 1] == sl[i - 1] && dl[e - 1] == dl[j - 1] && d <= i && e <= j {
                    lemma_keyroot_unique(sl, rd, i);
                    lemma_keyroot_unique(dl, re, j);
                }
                assert(td1[d]@[e] == td0[d]@[e]);
                assert forall|d2: int, e2: int|
                    li <= d2 <= d && lj <= e2 <= e && !(sl[d2 - 1] == li && dl[e2 - 1] == lj) implies #[trigger] td0[d2]@[e2]
                        == td1[d2]@[e2] by {
                    lemma_root_of(sl, d2);
                    lemma_root_of(dl, e2);
                    if sl[d2 - 1] != li {
                        lemma_root_earlier(sl, d, d2);
                    } else {
                        lemma_keyroot_unique(sl, root_of(sl, d2), rd);
                        lemma_root_earlier(dl, e, e2);
                    }
                    if sl[i - 1] <= d2 <= i && dl[j - 1] <= e2 <= j && sl[d2 - 1] == sl[i - 1] && dl[e2 - 1] == dl[j - 1] {
                        lemma_keyroot_unique(sl, root_of(sl, d2), i);
                        lemma_keyroot_unique(dl, root_of(dl, e2), j);
                    }
                }
                self.lemma_fdist_frame(li, lj, d, e, td0, td1);
            }
        }
    }

    /// A forest distance reads `td` only at subtree pairs off the two
    /// leftmost paths, inside its own prefix.
    proof fn lemma_fdist_frame(&self, li: int, lj: int, d: int, e: int, td1: Seq<Vec<u32>>, td2: Seq<Vec<u32>>)
        requires
            forall|d2: int, e2: int|
                li <= d2 <= d && lj <= e2 <= e && !(self.src.l@[d2 - 1] == li && self.dst.l@[e2 - 1] == lj) ==> #[trigger] td1[d2]@[e2]
                    == td2[d2]@[e2],
        ensures
            self.fdist(li, lj, d, e, td1) == self.fdist(li, lj, d, e, td2),
        decreases d + e + 2,
    {
        reveal(Solver::fdist);
        if d + e <= 0 || (d < li && e < lj) {
        } else if d < li {
            self.lemma_fdist_frame(li, lj, d, e - 1, td1, td2);
        } else if e < lj {
            self.lemma_fdist_frame(li, lj, d - 1, e, td1, td2);
        } else {
            let sl = self.src.l@[d - 1] as int;
            let dl = self.dst.l@[e - 1] as int;
            self.lemma_fdist_frame(li, lj, d - 1, e, td1, td2);
            self.lemma_fdist_frame(li, lj, d, e - 1, td1, td2);
            if sl == li && dl == lj {
                self.lemma_fdist_frame(li, lj, d - 1, e - 1, td1, td2);
            } else if 1 <= sl <= d && 1 <= dl <= e {
                self.lemma_fdist_frame(li, lj, sl - 1, dl - 1, td1, td2);
                assert(td1[d]@[e] == td2[d]@[e]);
            }
        }
    }

    /// The price one call of `relabel` answers is the one `cost_at` names.
    proof fn lemma_cost_at(&self, d: int, e: int, r: Option<u32>)
        requires
            self.ok(),
            1 <= d <= self.n(),
            1 <= e <= self.m(),
            call_ensures(self.relabel, (self.src.values@[d - 1], self.dst.values@[e - 1]), r),
        ensures
            r matches Some(c) ==> self.cost_at(d, e) == c,
            r is None ==> self.cost_at(d, e) == INF,
    {
        let a = self.src.values@[d - 1];
        let b = self.dst.values@[e - 1];
        assert(self.src.values@.contains(a));
        assert(self.dst.values@.contains(b));
        if exists|c: u32| call_ensures(self.relabel, (a, b), Some(c)) {
            let c = choose|c: u32| call_ensures(self.relabel, (a, b), Some(c));
            assert(r == Some(c));
        }
    }

    /// The forest-distance DP for the subtree pair (i, j), 1-based.
    /// Fills `treedist` for every subtree pair it closes; returns the
    /// forest table for backtracking.
    fn forest_dist(&self, i: usize, j: usize, treedist: &mut Vec<Vec<u32>>) -> (fd: Vec<Vec<u32>>)
        requires
            self.ok(),
            1 <= i <= self.n(),
            1 <= j <= self.m(),
            rect(old(treedist)@, self.n() + 1, self.m() + 1),
            bounded(old(treedist)@, self.n() + self.m()),
        ensures
            rect(final(treedist)@, self.n() + 1, self.m() + 1),
            bounded(final(treedist)@, self.n() + self.m()),
            self.table_ok(i as int, j as int, fd@),
            forall|d: int, e: int|
                self.src.l@[i - 1] - 1 <= d <= i && self.dst.l@[j - 1] - 1 <= e <= j ==> #[trigger] fd@[d]@[e]
                    == self.fdist(self.src.l@[i - 1] as int, self.dst.l@[j - 1] as int, d, e, old(treedist)@),
            forall|d: int, e: int|
                0 <= d <= self.n() && 0 <= e <= self.m() ==> #[trigger] final(treedist)@[d]@[e] == if self.src.l@[i - 1]
                    <= d <= i && self.dst.l@[j - 1] <= e <= j && self.src.l@[d - 1] == self.src.l@[i - 1]
                    && self.dst.l@[e - 1] == self.dst.l@[j - 1] {
                    fd@[d]@[e]
                } else {
                    old(treedist)@[d]@[e]
                },
    {
        let ghost td0 = treedist@;
        let ghost n = self.n();
        let ghost m = self.m();
        let li = self.src.l[i - 1];
        let lj = self.dst.l[j - 1];
        proof {
            assert(1 <= li <= i);
            assert(1 <= lj <= j);
        }
        let mut fd = zeros(i + 1, j + 1);
        proof {
            reveal(Solver::fdist);
            assert(self.fdist(li as int, lj as int, li - 1, lj - 1, td0) == 0);
        }
        let mut di = li;
        while di <= i
            invariant
                i <= SIZE_LIMIT,
                1 <= li <= di <= i + 1,
                1 <= lj <= j,
                li == self.src.l@[i - 1],
                lj == self.dst.l@[j - 1],
                rect(fd@, i + 1, j + 1),
                forall|d: int, e: int| 0 <= d <= i && 0 <= e <= j && !(li <= d < di && e == lj - 1) ==> (#[trigger] fd@[d]@[e]) == 0,
                forall|d: int| li <= d < di ==> (#[trigger] fd@[d])@[lj - 1] == d - li + 1,
                treedist@ == td0,
                forall|d: int| li - 1 <= d < di ==> #[trigger] self.fdist(li as int, lj as int, d, lj - 1, td0) == d - li + 1,
            decreases i + 1 - di,
        {
            let ghost old_fd = fd@;
            let v = fd[di - 1][lj - 1].saturating_add(1);
            fd[di][lj - 1] = v;
            proof {
                reveal(Solver::fdist);
                assert(self.fdist(li as int, lj as int, di as int, lj - 1, td0) == self.fdist(li as int, lj as int, di - 1, lj - 1, td0) + 1);
                assert forall|d: int| 0 <= d <= i && d != di implies #[trigger] fd@[d] == old_fd[d] by {}
                assert(fd@[di as int]@ == old_fd[di as int]@.update(lj - 1, v));
            }
            di = di + 1;
        }
        let mut dj = lj;
        while dj <= j
            invariant
                j <= SIZE_LIMIT,
                1 <= li <= i,
                1 <= lj <= dj <= j + 1,
                li == self.src.l@[i - 1],
                lj == self.dst.l@[j - 1],
                rect(fd@, i + 1, j + 1),
                forall|d: int, e: int| 0 <= d <= i && 0 <= e <= j && !(li <= d <= i && e == lj - 1) && !(d == li - 1 && lj <= e < dj) ==> (#[trigger] fd@[d]@[e]) == 0,
                forall|d: int| li <= d <= i ==> (#[trigger] fd@[d])@[lj - 1] == d - li + 1,
                forall|e: int| lj <= e < dj ==> (#[trigger] fd@[li - 1]@[e]) == e - lj + 1,
                treedist@ == td0,
                forall|d: int| li - 1 <= d <= i ==> #[trigger] self.fdist(li as int, lj as int, d, lj - 1, td0) == d - li + 1,
                forall|e: int| lj - 1 <= e < dj ==> #[trigger] self.fdist(li as int, lj as int, li - 1, e, td0) == e - lj + 1,
            decreases j + 1 - dj,
        {
            let ghost old_fd = fd@;
            let v = fd[li - 1][dj - 1].saturating_add(1);
            fd[li - 1][dj] = v;
            proof {
                reveal(Solver::fdist);
                assert(self.fdist(li as int, lj as int, li - 1, dj as int, td0) == self.fdist(li as int, lj as int, li - 1, dj - 1, td0) + 1);
                assert forall|d: int| 0 <= d <= i && d != li - 1 implies #[trigger] fd@[d] == old_fd[d] by {}
                assert(fd@[li - 1]@ == old_fd[li - 1]@.update(dj as int, v));
            }
            dj = dj + 1;
        }
        let mut di = li;
        while di <= i
            invariant
                self.ok(),
                n == self.n(),
                m == self.m(),
                1 <= i <= n,
                1 <= j <= m,
                1 <= li <= di <= i + 1,
                1 <= lj <= j,
                li == self.src.l@[i - 1],
                lj == self.dst.l@[j - 1],
                rect(fd@, i + 1, j + 1),
                rect(treedist@, n + 1, m + 1),
                bounded(treedist@, n + m),
                forall|d: int| li <= d <= i ==> (#[trigger] fd@[d])@[lj - 1] == d - li + 1,
                forall|e: int| lj <= e <= j ==> (#[trigger] fd@[li - 1]@[e]) == e - lj + 1,
                fd@[li - 1]@[lj - 1] == 0,
                forall|d: int, e: int|
                    li - 1 <= d <= i && lj - 1 <= e <= j ==> #[trigger] fd@[d]@[e] <= (d - li + 1) + (e - lj + 1),
                forall|d: int, e: int|
                    li <= d < di && lj <= e <= j && self.src.l@[d - 1] == li && self.dst.l@[e - 1] == lj
                        && #[trigger] fd@[d]@[e] != fd@[d - 1]@[e] + 1 && fd@[d]@[e] != fd@[d]@[e - 1] + 1
                        ==> permitted(self.relabel, self.src.values@[d - 1], self.dst.values@[e - 1]),
                forall|d: int, e: int|
                    li - 1 <= d <= i && lj - 1 <= e <= j && (d == li - 1 || e == lj - 1 || d < di) ==> #[trigger] fd@[d]@[e]
                        == self.fdist(li as int, lj as int, d, e, td0),
                forall|d: int, e: int|
                    0 <= d <= n && 0 <= e <= m ==> #[trigger] treedist@[d]@[e] == if li <= d < di && lj <= e <= j
                        && self.src.l@[d - 1] == li && self.dst.l@[e - 1] == lj {
                        fd@[d]@[e]
                    } else {
                        td0[d]@[e]
                    },
                rect(td0, n + 1, m + 1),
                bounded(td0, n + m),
            decreases i + 1 - di,
        {
            let mut dj = lj;
            while dj <= j
                invariant
                    self.ok(),
                    n == self.n(),
                    m == self.m(),
                    1 <= i <= n,
                    1 <= j <= m,
                    1 <= li <= di <= i,
                    1 <= lj <= dj <= j + 1,
                    li == self.src.l@[i - 1],
                    lj == self.dst.l@[j - 1],
                    rect(fd@, i + 1, j + 1),
                    rect(treedist@, n + 1, m + 1),
                    bounded(treedist@, n + m),
                    forall|d: int| li <= d <= i ==> (#[trigger] fd@[d])@[lj - 1] == d - li + 1,
                    forall|e: int| lj <= e <= j ==> (#[trigger] fd@[li - 1]@[e]) == e - lj + 1,
                    fd@[li - 1]@[lj - 1] == 0,
                    forall|d: int, e: int|
                        li - 1 <= d <= i && lj - 1 <= e <= j ==> #[trigger] fd@[d]@[e] <= (d - li + 1) + (e - lj + 1),
                    forall|d: int, e: int|
                        li <= d <= di && lj <= e <= j && (d < di || e < dj) && self.src.l@[d - 1] == li && self.dst.l@[e - 1] == lj
                            && #[trigger] fd@[d]@[e] != fd@[d - 1]@[e] + 1 && fd@[d]@[e] != fd@[d]@[e - 1] + 1
                            ==> permitted(self.relabel, self.src.values@[d - 1], self.dst.values@[e - 1]),
                    forall|d: int, e: int|
                        li - 1 <= d <= i && lj - 1 <= e <= j && (d == li - 1 || e == lj - 1 || d < di || (d == di && e < dj))
                            ==> #[trigger] fd@[d]@[e] == self.fdist(li as int, lj as int, d, e, td0),
                    forall|d: int, e: int|
                        0 <= d <= n && 0 <= e <= m ==> #[trigger] treedist@[d]@[e] == if li <= d <= di && lj <= e <= j
                            && (d < di || e < dj) && self.src.l@[d - 1] == li && self.dst.l@[e - 1] == lj {
                            fd@[d]@[e]
                        } else {
                            td0[d]@[e]
                        },
                    rect(td0, n + 1, m + 1),
                    bounded(td0, n + m),
                decreases j + 1 - dj,
            {
                let ghost old_fd = fd@;
                let delete = fd[di - 1][dj].saturating_add(1);
                let insert = fd[di][dj - 1].saturating_add(1);
                let sl = self.src.l[di - 1];
                let dl = self.dst.l[dj - 1];
                proof {
                    assert(li <= sl <= di);
                    assert(lj <= dl <= dj);
                }
                if sl == li && dl == lj {
                    proof {
                        assert(self.src.values@.contains(self.src.values@[di - 1]));
                        assert(self.dst.values@.contains(self.dst.values@[dj - 1]));
                    }
                    let relabeled = (self.relabel)(self.src.values[di - 1], self.dst.values[dj - 1]);
                    let cost = match relabeled {
                        Some(c) => c,
                        None => INF,
                    };
                    let replace = fd[di - 1][dj - 1].saturating_add(cost);
                    let v = min3(delete, insert, replace);
                    let ghost old_td = treedist@;
                    fd[di][dj] = v;
                    treedist[di][dj] = v;
                    proof {
                        assert(delete == old_fd[di - 1]@[dj as int] + 1);
                        assert(insert == old_fd[di as int]@[dj - 1] + 1);
                        if v != delete && v != insert {
                            assert(v == replace);
                            assert(relabeled is Some);
                        }
                        reveal(Solver::fdist);
                        self.lemma_cost_at(di as int, dj as int, relabeled);
                        assert(cost == self.cost_at(di as int, dj as int));
                        assert(v == self.fdist(li as int, lj as int, di as int, dj as int, td0));
                        assert forall|d: int, e: int| 0 <= d <= n && 0 <= e <= m && (d != di || e != dj) implies #[trigger] treedist@[d]@[e] == old_td[d]@[e] by {
                            if d != di {
                                assert(treedist@[d] == old_td[d]);
                            }
                        }
                    }
                } else {
                    let closed = fd[sl - 1][dl - 1].saturating_add(treedist[di][dj]);
                    let v = min3(delete, insert, closed);
                    fd[di][dj] = v;
                    proof {
                        reveal(Solver::fdist);
                        assert(treedist@[di as int]@[dj as int] == td0[di as int]@[dj as int]);
                        assert(v == self.fdist(li as int, lj as int, di as int, dj as int, td0));
                    }
                }
                proof {
                    assert forall|d: int, e: int| 0 <= d <= i && 0 <= e <= j && (d != di || e != dj) implies #[trigger] fd@[d]@[e] == old_fd[d]@[e] by {}
                }
                dj = dj + 1;
            }
            di = di + 1;
        }
        fd
    }
}

} // verus!
