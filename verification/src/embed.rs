//! The positional correspondence between two structurally equal
//! subtrees: each node of one sits where the same child steps lead in
//! the other.

use vstd::prelude::*;

use crate::tree::{anc_in, anc_or_self, NodeId, TreeView};

verus! {

/// The position of `n` among its parent's children.
pub open spec fn child_index(t: TreeView, n: NodeId) -> int {
    let p = t.parent(n).unwrap();
    choose|k: int| 0 <= k < t.children(p).len() && t.children(p)[k] == n
}

/// Where `n`, inside the subtree of `src` at `s`, sits in the
/// structurally equal subtree of `dst` at `d`: the node the same child
/// steps reach from `d`.
pub open spec fn pos_image(src: TreeView, dst: TreeView, s: NodeId, d: NodeId, n: NodeId) -> NodeId
    decreases n.0,
{
    if n == s || n.0 >= src.len() {
        d
    } else {
        match src.parent(n) {
            Some(p) => if p.0 < n.0 {
                dst.children(pos_image(src, dst, s, d, p))[child_index(src, n)]
            } else {
                d
            },
            None => d,
        }
    }
}

/// A proper ancestor sits before its descendant.
pub proof fn lemma_anc_before(t: TreeView, a: NodeId, n: NodeId)
    requires
        anc_in(t.nodes, a, n),
    ensures
        a.0 < n.0,
    decreases n.0,
{
    let p = t.nodes[n.0 as int].parent.unwrap();
    if p != a {
        lemma_anc_before(t, a, p);
    }
}

/// A node below the root is its parent's child, at `child_index`, and
/// at no other position.
pub proof fn lemma_child_index(t: TreeView, n: NodeId)
    requires
        t.arena_wf(),
        0 < n.0 < t.len(),
    ensures
        t.parent(n) matches Some(p) && p.0 < n.0 && 0 <= child_index(t, n) < t.children(p).len() && t.children(
            p,
        )[child_index(t, n)] == n,
        forall|k: int|
            0 <= k < t.children(t.parent(n).unwrap()).len() && #[trigger] t.children(t.parent(n).unwrap())[k] == n
                ==> k == child_index(t, n),
{
    let p = t.nodes[n.0 as int].parent.unwrap();
    assert(t.nodes[p.0 as int].children.contains(n));
    let k0 = child_index(t, n);
    assert(0 <= k0 < t.children(p).len() && t.children(p)[k0] == n);
    assert forall|k: int| 0 <= k < t.children(p).len() && #[trigger] t.children(p)[k] == n implies k == k0 by {
        if k < k0 {
            assert(t.nodes[p.0 as int].children[k].0 < t.nodes[p.0 as int].children[k0].0);
        } else if k > k0 {
            assert(t.nodes[p.0 as int].children[k0].0 < t.nodes[p.0 as int].children[k].0);
        }
    }
}

/// A child's parent link points back at its parent.
pub proof fn lemma_child_parent(t: TreeView, x: NodeId, k: int)
    requires
        t.arena_wf(),
        t.valid(x),
        0 <= k < t.children(x).len(),
    ensures
        t.parent(t.children(x)[k]) == Some(x),
        x.0 < t.children(x)[k].0 < t.len(),
        anc_in(t.nodes, x, t.children(x)[k]),
        child_index(t, t.children(x)[k]) == k,
{
    let c = t.children(x)[k];
    assert(t.nodes[x.0 as int].children[k] == c);
    lemma_child_index(t, c);
}

/// Two ancestors-or-self of one node are ancestor-or-self of each other.
pub proof fn lemma_anc_comparable(t: TreeView, x1: NodeId, x2: NodeId, n: NodeId)
    requires
        anc_or_self(t.nodes, x1, n),
        anc_or_self(t.nodes, x2, n),
    ensures
        anc_or_self(t.nodes, x1, x2) || anc_or_self(t.nodes, x2, x1),
    decreases n.0,
{
    if x1 != n && x2 != n {
        let p = t.nodes[n.0 as int].parent.unwrap();
        lemma_anc_comparable(t, x1, x2, p);
    }
}

/// Ancestry chains: an ancestor-or-self of an ancestor-or-self.
pub proof fn lemma_anc_or_self_trans(t: TreeView, a: NodeId, b: NodeId, c: NodeId)
    requires
        anc_or_self(t.nodes, a, b),
        anc_or_self(t.nodes, b, c),
    ensures
        anc_or_self(t.nodes, a, c),
{
    if a != b && b != c {
        crate::tree::lemma_anc_trans(t, a, b, c);
    }
}

/// A proper descendant of `x` lies under one of `x`'s children.
pub proof fn lemma_child_toward(t: TreeView, x: NodeId, n: NodeId)
    requires
        t.arena_wf(),
        anc_in(t.nodes, x, n),
    ensures
        exists|k: int| 0 <= k < t.children(x).len() && anc_or_self(t.nodes, #[trigger] t.children(x)[k], n),
    decreases n.0,
{
    let p = t.nodes[n.0 as int].parent.unwrap();
    if p == x {
        lemma_child_index(t, n);
        let k = child_index(t, n);
        assert(anc_or_self(t.nodes, t.children(x)[k], n));
    } else {
        lemma_child_toward(t, x, p);
        let k = choose|k: int| 0 <= k < t.children(x).len() && anc_or_self(t.nodes, #[trigger] t.children(x)[k], p);
        assert(anc_in(t.nodes, p, n));
        lemma_anc_or_self_trans(t, t.children(x)[k], p, n);
    }
}

/// Inside the subtree at `s`, each node's positional image roots a
/// structurally equal subtree, and is the matching child of its parent's
/// image.
pub proof fn lemma_pos_equal(src: TreeView, dst: TreeView, s: NodeId, d: NodeId, n: NodeId)
    requires
        src.arena_wf(),
        dst.arena_wf(),
        src.subtree_eq(s, dst, d),
        anc_or_self(src.nodes, s, n),
    ensures
        src.subtree_eq(n, dst, pos_image(src, dst, s, d, n)),
        n != s ==> (src.parent(n) matches Some(p) && anc_or_self(src.nodes, s, p) && dst.parent(
            pos_image(src, dst, s, d, n),
        ) == Some(pos_image(src, dst, s, d, p)) && pos_image(src, dst, s, d, n) == dst.children(
            pos_image(src, dst, s, d, p),
        )[child_index(src, n)]),
    decreases n.0,
{
    if n != s {
        let p = src.nodes[n.0 as int].parent.unwrap();
        assert(p.0 < n.0);
        lemma_pos_equal(src, dst, s, d, p);
        lemma_child_index(src, n);
        let k = child_index(src, n);
        let q = pos_image(src, dst, s, d, p);
        assert(src.subtree_eq(src.children(p)[k], dst, dst.children(q)[k]));
        lemma_child_parent(dst, q, k);
    }
}

/// Positional images keep ancestry.
pub proof fn lemma_pos_anc(src: TreeView, dst: TreeView, s: NodeId, d: NodeId, a: NodeId, n: NodeId)
    requires
        src.arena_wf(),
        dst.arena_wf(),
        src.subtree_eq(s, dst, d),
        anc_or_self(src.nodes, s, a),
        anc_in(src.nodes, a, n),
    ensures
        anc_in(dst.nodes, pos_image(src, dst, s, d, a), pos_image(src, dst, s, d, n)),
    decreases n.0,
{
    let p = src.nodes[n.0 as int].parent.unwrap();
    lemma_anc_or_self_trans(src, s, a, n);
    lemma_anc_before(src, a, n);
    if s != a {
        lemma_anc_before(src, s, a);
    }
    assert(n != s);
    lemma_pos_equal(src, dst, s, d, n);
    if p != a {
        lemma_pos_anc(src, dst, s, d, a, p);
    }
    let q = pos_image(src, dst, s, d, p);
    let v = pos_image(src, dst, s, d, n);
    assert(dst.parent(v) == Some(q));
    lemma_pos_equal(src, dst, s, d, p);
    lemma_child_index(src, n);
    lemma_child_parent(dst, q, child_index(src, n));
}

/// Positional images of distinct nodes are distinct.
pub proof fn lemma_pos_injective(src: TreeView, dst: TreeView, s: NodeId, d: NodeId, n1: NodeId, n2: NodeId)
    requires
        src.arena_wf(),
        dst.arena_wf(),
        src.subtree_eq(s, dst, d),
        anc_or_self(src.nodes, s, n1),
        anc_or_self(src.nodes, s, n2),
        pos_image(src, dst, s, d, n1) == pos_image(src, dst, s, d, n2),
    ensures
        n1 == n2,
    decreases n1.0 + n2.0,
{
    if n1 == s && n2 != s {
        lemma_pos_anc(src, dst, s, d, s, n2);
        lemma_anc_before(dst, d, pos_image(src, dst, s, d, n2));
    } else if n2 == s && n1 != s {
        lemma_pos_anc(src, dst, s, d, s, n1);
        lemma_anc_before(dst, d, pos_image(src, dst, s, d, n1));
    } else if n1 != s && n2 != s {
        lemma_pos_equal(src, dst, s, d, n1);
        lemma_pos_equal(src, dst, s, d, n2);
        let p1 = src.nodes[n1.0 as int].parent.unwrap();
        let p2 = src.nodes[n2.0 as int].parent.unwrap();
        lemma_pos_equal(src, dst, s, d, p1);
        lemma_pos_injective(src, dst, s, d, p1, p2);
        lemma_child_index(src, n1);
        lemma_child_index(src, n2);
        let q = pos_image(src, dst, s, d, p1);
        let k1 = child_index(src, n1);
        let k2 = child_index(src, n2);
        assert(src.subtree_eq(p1, dst, q));
        if k1 != k2 {
            lemma_child_parent(dst, q, k1);
            lemma_child_parent(dst, q, k2);
            if k1 < k2 {
                assert(dst.nodes[q.0 as int].children[k1].0 < dst.nodes[q.0 as int].children[k2].0);
            } else {
                assert(dst.nodes[q.0 as int].children[k2].0 < dst.nodes[q.0 as int].children[k1].0);
            }
        }
    }
}

/// Every node of the subtree at `d` is the positional image of one in
/// the subtree at `s`.
pub proof fn lemma_pos_onto(src: TreeView, dst: TreeView, s: NodeId, d: NodeId, v: NodeId)
    requires
        src.arena_wf(),
        dst.arena_wf(),
        src.subtree_eq(s, dst, d),
        anc_or_self(dst.nodes, d, v),
    ensures
        exists|n: NodeId| anc_or_self(src.nodes, s, n) && #[trigger] pos_image(src, dst, s, d, n) == v,
    decreases v.0,
{
    if v == d {
        assert(pos_image(src, dst, s, d, s) == v);
    } else {
        let q = dst.nodes[v.0 as int].parent.unwrap();
        lemma_pos_onto(src, dst, s, d, q);
        let nq = choose|n: NodeId| anc_or_self(src.nodes, s, n) && #[trigger] pos_image(src, dst, s, d, n) == q;
        lemma_pos_equal(src, dst, s, d, nq);
        lemma_child_index(dst, v);
        let k = child_index(dst, v);
        assert(src.subtree_eq(nq, dst, q));
        assert(k < src.children(nq).len());
        assert(src.subtree_eq(nq, dst, q) ==> nq.0 < src.children(nq)[k].0 < src.len());
        let n = src.children(nq)[k];
        lemma_child_parent(src, nq, k);
        assert(anc_or_self(src.nodes, s, n)) by {
            lemma_anc_or_self_trans(src, s, nq, n);
        }
        if s != nq {
            lemma_anc_before(src, s, nq);
        }
        assert(n != s && n.0 < src.len() && src.parent(n) == Some(nq) && nq.0 < n.0);
        assert(pos_image(src, dst, s, d, n) == dst.children(pos_image(src, dst, s, d, nq))[child_index(src, n)]);
    }
}

} // verus!
