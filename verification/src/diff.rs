//! Tree diffing: the order-preserving partial matching between two trees
//! and the three phases that build it (hash anchoring, top-down
//! alignment, bounded Zhang–Shasha refinement).

use std::collections::HashMap;

use vstd::prelude::*;
use vstd::string::StringExecFns;

use crate::text::opt_str_eq;
use crate::embed::pos_image;
use crate::tree::{anc_in, anc_or_self, NodeId, Tree, TreeView};
use crate::walk::{lemma_pop_push, weight};
use crate::zs::{ZsTree, forest_values, zs_size, zs_values};

verus! {

/// A matching as the specifications see it: the image of every src node
/// and the preimage of every dst node.
pub struct MatchingView {
    pub fwd: Seq<Option<NodeId>>,
    pub bwd: Seq<Option<NodeId>>,
}

impl MatchingView {
    /// The two directions are inverse partial maps.
    pub open spec fn wf(self) -> bool {
        &&& self.fwd.len() <= usize::MAX
        &&& self.bwd.len() <= usize::MAX
        &&& forall|i: int|
            #![trigger self.fwd[i]]
            0 <= i < self.fwd.len() ==> (self.fwd[i] matches Some(d) ==> d.0 < self.bwd.len()
                && (self.bwd[d.0 as int] matches Some(s) && s.0 == i))
        &&& forall|j: int|
            #![trigger self.bwd[j]]
            0 <= j < self.bwd.len() ==> (self.bwd[j] matches Some(s) ==> s.0 < self.fwd.len()
                && (self.fwd[s.0 as int] matches Some(d) && d.0 == j))
    }

    /// Sized for the two trees.
    pub open spec fn fits(self, src: TreeView, dst: TreeView) -> bool {
        &&& self.fwd.len() == src.len()
        &&& self.bwd.len() == dst.len()
    }

    pub open spec fn image(self, s: NodeId) -> Option<NodeId> {
        self.fwd[s.0 as int]
    }

    pub open spec fn preimage(self, d: NodeId) -> Option<NodeId> {
        self.bwd[d.0 as int]
    }

    /// Every matched pair shares a kind.
    pub open spec fn kinds_agree(self, src: TreeView, dst: TreeView) -> bool {
        forall|i: int|
            #![trigger self.fwd[i]]
            0 <= i < self.fwd.len() && self.fwd[i] is Some ==> src.kind_id(NodeId(i as usize))
                == dst.kind_id(self.fwd[i].unwrap())
    }

    /// Every matched proper ancestor of a matched node has an image that
    /// is a proper ancestor of the node's image.
    pub open spec fn ancestry_kept(self, src: TreeView, dst: TreeView) -> bool {
        forall|s: NodeId, a: NodeId|
            #![trigger src.is_anc(a, s), self.fwd[s.0 as int], self.fwd[a.0 as int]]
            s.0 < self.fwd.len() && a.0 < self.fwd.len() && self.fwd[s.0 as int] is Some
                && self.fwd[a.0 as int] is Some && src.is_anc(a, s) ==> dst.is_anc(
                self.fwd[a.0 as int].unwrap(),
                self.fwd[s.0 as int].unwrap(),
            )
    }

    /// Matched siblings keep their order in the destination's document
    /// order.
    pub open spec fn order_kept(self, src: TreeView, dst: TreeView) -> bool {
        forall|p: NodeId, k1: int, k2: int|
            #![trigger src.children(p)[k1], src.children(p)[k2]]
            src.valid(p) && 0 <= k1 < k2 < src.children(p).len() && self.image(
                src.children(p)[k1],
            ) is Some && self.image(src.children(p)[k2]) is Some ==> self.image(
                src.children(p)[k1],
            ).unwrap().0 < self.image(src.children(p)[k2]).unwrap().0
    }

    /// The matching invariants beyond bijectivity.
    pub open spec fn valid(self, src: TreeView, dst: TreeView) -> bool {
        &&& self.kinds_agree(src, dst)
        &&& self.ancestry_kept(src, dst)
        &&& self.order_kept(src, dst)
    }

    /// Every pair of `earlier` is still a pair, over the same two trees.
    pub open spec fn retains(self, earlier: MatchingView) -> bool {
        &&& self.fwd.len() == earlier.fwd.len()
        &&& self.bwd.len() == earlier.bwd.len()
        &&& forall|i: int|
            #![trigger earlier.fwd[i]]
            0 <= i < earlier.fwd.len() && earlier.fwd[i] is Some ==> self.fwd[i] == earlier.fwd[i]
    }
}

/// The matched pairs of `fwd`, in src order.
pub open spec fn pairs_of(fwd: Seq<Option<NodeId>>) -> Seq<(NodeId, NodeId)>
    decreases fwd.len(),
{
    if fwd.len() == 0 {
        seq![]
    } else {
        let rest = pairs_of(fwd.drop_last());
        match fwd.last() {
            Some(d) => rest.push((NodeId((fwd.len() - 1) as usize), d)),
            None => rest,
        }
    }
}

/// Each listed pair is matched, every matched src node is listed, and
/// src nodes come in increasing order.
pub proof fn lemma_pairs_of(fwd: Seq<Option<NodeId>>)
    requires
        fwd.len() <= usize::MAX,
    ensures
        forall|k: int|
            0 <= k < pairs_of(fwd).len() ==> (#[trigger] pairs_of(fwd)[k]).0.0 < fwd.len()
                && fwd[pairs_of(fwd)[k].0.0 as int] == Some(pairs_of(fwd)[k].1),
        forall|i: int|
            0 <= i < fwd.len() && #[trigger] fwd[i] is Some ==> exists|k: int|
                0 <= k < pairs_of(fwd).len() && pairs_of(fwd)[k] == (NodeId(i as usize), fwd[i].unwrap()),
        forall|k1: int, k2: int|
            0 <= k1 < k2 < pairs_of(fwd).len() ==> (#[trigger] pairs_of(fwd)[k1]).0.0 < (
            #[trigger] pairs_of(fwd)[k2]).0.0,
    decreases fwd.len(),
{
    if fwd.len() > 0 {
        let rest = fwd.drop_last();
        lemma_pairs_of(rest);
        let n = fwd.len() - 1;
        let pr = pairs_of(rest);
        let pf = pairs_of(fwd);
        if let Some(d) = fwd.last() {
            assert(pf == pr.push((NodeId(n as usize), d)));
        } else {
            assert(pf == pr);
        }
        assert forall|k: int| 0 <= k < pr.len() implies #[trigger] pf[k] == pr[k] by {}
        assert forall|k: int| 0 <= k < pf.len() implies (#[trigger] pf[k]).0.0 < fwd.len()
            && fwd[pf[k].0.0 as int] == Some(pf[k].1) by {
            if k < pr.len() {
                assert(rest[pr[k].0.0 as int] == fwd[pr[k].0.0 as int]);
            }
        }
        assert forall|k1: int, k2: int| 0 <= k1 < k2 < pf.len() implies (#[trigger] pf[k1]).0.0 < (
            #[trigger] pf[k2]).0.0 by {
            if k2 >= pr.len() {
                assert(pf[k2].0.0 == n);
                assert(pf[k1] == pr[k1]);
            }
        }
        assert forall|i: int| 0 <= i < fwd.len() && #[trigger] fwd[i] is Some implies exists|k: int|
            0 <= k < pairs_of(fwd).len() && pairs_of(fwd)[k] == (NodeId(i as usize), fwd[i].unwrap()) by {
            if i < n {
                assert(rest[i] == fwd[i]);
                let k = choose|k: int| 0 <= k < pairs_of(rest).len() && pairs_of(rest)[k] == (NodeId(i as usize), rest[i].unwrap());
                assert(pairs_of(fwd)[k] == pairs_of(rest)[k]);
            } else {
                assert(pairs_of(fwd).last() == (NodeId(i as usize), fwd[i].unwrap()));
            }
        }
    }
}

/// A matching's two directions are inverse: `s` maps to `d` exactly when
/// `d` maps back to `s`.
pub proof fn lemma_image_preimage_inverse(m: MatchingView)
    requires
        m.wf(),
    ensures
        forall|s: NodeId, d: NodeId|
            #![trigger m.image(s), m.preimage(d)]
            s.0 < m.fwd.len() && d.0 < m.bwd.len() ==> (m.image(s) == Some(d) <==> m.preimage(d) == Some(s)),
{
    assert forall|s: NodeId, d: NodeId|
        #![trigger m.image(s), m.preimage(d)]
        s.0 < m.fwd.len() && d.0 < m.bwd.len() implies (m.image(s) == Some(d) <==> m.preimage(d) == Some(s)) by {
        if m.image(s) == Some(d) {
            assert(m.fwd[s.0 as int] == Some(d));
        }
        if m.preimage(d) == Some(s) {
            assert(m.bwd[d.0 as int] == Some(s));
        }
    }
}

/// A matching between two trees: an order-preserving partial bijection
/// from src nodes to dst nodes.
///
/// Bijectivity is structural — [`Matching::insert`] unlinks whatever
/// pairing either endpoint had — so [`Matching::validate`] checks the
/// remaining invariants: matched pairs share a kind, ancestry is
/// preserved, and sibling order never crosses.
#[derive(Debug)]
pub struct Matching {
    src_to_dst: Vec<Option<NodeId>>,
    dst_to_src: Vec<Option<NodeId>>,
}

impl View for Matching {
    type V = MatchingView;

    closed spec fn view(&self) -> MatchingView {
        MatchingView { fwd: self.src_to_dst@, bwd: self.dst_to_src@ }
    }
}

/// A way a [`Matching`] can break its invariants.
#[derive(Debug, Clone, Copy, PartialEq, Eq, Structural)]
pub enum InvariantViolation {
    /// Matched nodes differ in kind.
    Kind { src: NodeId, dst: NodeId },
    /// `ancestor` contains `descendant` in src but their images do not
    /// nest.
    Ancestry { ancestor: NodeId, descendant: NodeId },
    /// Matched siblings `first` and `second` cross in dst order.
    Order { first: NodeId, second: NodeId },
}

fn nones(n: usize) -> (r: Vec<Option<NodeId>>)
    ensures
        r@.len() == n,
        forall|i: int| 0 <= i < n ==> #[trigger] r@[i] is None,
{
    let mut r: Vec<Option<NodeId>> = Vec::new();
    let mut i: usize = 0;
    while i < n
        invariant
            i <= n,
            r@.len() == i,
            forall|k: int| 0 <= k < i ==> #[trigger] r@[k] is None,
        decreases n - i,
    {
        r.push(None);
        i = i + 1;
    }
    r
}

impl Matching {
    /// An empty matching sized for `src` and `dst`.
    pub fn new(src: &Tree, dst: &Tree) -> (m: Matching)
        ensures
            m@.wf(),
            m@.fits(src@, dst@),
            forall|i: int| 0 <= i < src@.len() ==> #[trigger] m@.fwd[i] is None,
            forall|j: int| 0 <= j < dst@.len() ==> #[trigger] m@.bwd[j] is None,
    {
        Matching { src_to_dst: nones(src.node_count()), dst_to_src: nones(dst.node_count()) }
    }

    /// Pairs `src` with `dst`, unlinking any pairing either node had.
    pub fn insert(&mut self, src: NodeId, dst: NodeId)
        requires
            old(self)@.wf(),
            src.0 < old(self)@.fwd.len(),
            dst.0 < old(self)@.bwd.len(),
        ensures
            final(self)@.wf(),
            final(self)@.fwd.len() == old(self)@.fwd.len(),
            final(self)@.bwd.len() == old(self)@.bwd.len(),
            final(self)@.image(src) == Some(dst),
            final(self)@.preimage(dst) == Some(src),
            forall|i: int|
                0 <= i < old(self)@.fwd.len() && i != src.0 ==> #[trigger] final(self)@.fwd[i] == (
                if old(self)@.fwd[i] == Some(dst) {
                    None
                } else {
                    old(self)@.fwd[i]
                }),
            forall|j: int|
                0 <= j < old(self)@.bwd.len() && j != dst.0 ==> #[trigger] final(self)@.bwd[j] == (
                if old(self)@.bwd[j] == Some(src) {
                    None
                } else {
                    old(self)@.bwd[j]
                }),
    {
        let ghost f0 = self@.fwd;
        let ghost b0 = self@.bwd;
        if let Some(old_dst) = self.src_to_dst[src.0] {
            self.dst_to_src.set(old_dst.0, None);
        }
        let ghost b1 = self@.bwd;
        if let Some(old_src) = self.dst_to_src[dst.0] {
            self.src_to_dst.set(old_src.0, None);
        }
        let ghost f1 = self@.fwd;
        self.src_to_dst.set(src.0, Some(dst));
        self.dst_to_src.set(dst.0, Some(src));
        proof {
            let f2 = self@.fwd;
            let b2 = self@.bwd;
            assert forall|i: int| 0 <= i < f0.len() && i != src.0 implies #[trigger] f2[i] == (
                if f0[i] == Some(dst) { None } else { f0[i] }) by {
                if f0[i] == Some(dst) {
                    assert(b0[dst.0 as int] matches Some(x) && x.0 == i);
                    if f0[src.0 as int] == Some(dst) {
                        assert(b0[dst.0 as int] matches Some(x) && x.0 == src.0);
                    }
                    assert(b1[dst.0 as int] == b0[dst.0 as int]);
                } else if f1[i] != f0[i] {
                    assert(b1[dst.0 as int] matches Some(x) && x.0 == i);
                    assert(b0[dst.0 as int] == b1[dst.0 as int]);
                }
            }
            assert forall|j: int| 0 <= j < b0.len() && j != dst.0 implies #[trigger] b2[j] == (
                if b0[j] == Some(src) { None } else { b0[j] }) by {
                if b0[j] == Some(src) {
                    assert(f0[src.0 as int] matches Some(y) && y.0 == j);
                } else if b1[j] != b0[j] {
                    assert(f0[src.0 as int] matches Some(y) && y.0 == j);
                    assert(b0[j] matches Some(x) && x.0 == src.0);
                }
            }
            assert forall|i: int| 0 <= i < f2.len() implies (#[trigger] f2[i] matches Some(d) ==> d.0 < b2.len()
                && (b2[d.0 as int] matches Some(x) && x.0 == i)) by {
                if i != src.0 {
                    if let Some(d) = f2[i] {
                        assert(f0[i] == Some(d));
                        assert(b0[d.0 as int] matches Some(x) && x.0 == i);
                    }
                }
            }
            assert forall|j: int| 0 <= j < b2.len() implies (#[trigger] b2[j] matches Some(s) ==> s.0 < f2.len()
                && (f2[s.0 as int] matches Some(y) && y.0 == j)) by {
                if j != dst.0 {
                    if let Some(s) = b2[j] {
                        assert(b0[j] == Some(s));
                        assert(f0[s.0 as int] matches Some(y) && y.0 == j);
                    }
                }
            }
        }
    }

    /// The dst node `src` is matched to, if any.
    pub fn image(&self, src: NodeId) -> (r: Option<NodeId>)
        requires
            src.0 < self@.fwd.len(),
        ensures
            r == self@.image(src),
    {
        self.src_to_dst[src.0]
    }

    /// The src node matched to `dst`, if any.
    pub fn preimage(&self, dst: NodeId) -> (r: Option<NodeId>)
        requires
            dst.0 < self@.bwd.len(),
        ensures
            r == self@.preimage(dst),
    {
        self.dst_to_src[dst.0]
    }

    /// All matched pairs, in src pre-order.
    pub fn pairs(&self) -> (r: Vec<(NodeId, NodeId)>)
        ensures
            r@ == pairs_of(self@.fwd),
    {
        let n = self.src_to_dst.len();
        let mut out: Vec<(NodeId, NodeId)> = Vec::new();
        let mut i: usize = 0;
        while i < n
            invariant
                n == self@.fwd.len(),
                i <= n,
                out@ == pairs_of(self@.fwd.subrange(0, i as int)),
            decreases n - i,
        {
            let ghost pre = self@.fwd.subrange(0, i as int);
            let ghost post = self@.fwd.subrange(0, i + 1);
            proof {
                assert(post.drop_last() =~= pre);
                assert(post.last() == self@.fwd[i as int]);
            }
            if let Some(d) = self.src_to_dst[i] {
                out.push((NodeId(i), d));
            }
            i = i + 1;
        }
        proof {
            assert(self@.fwd.subrange(0, n as int) =~= self@.fwd);
        }
        out
    }

    /// Checks the matching invariants against the trees it was built
    /// from: matched pairs share a kind, matched ancestors map to
    /// ancestors, and matched siblings keep their order.
    pub fn validate(&self, src: &Tree, dst: &Tree) -> (r: Result<(), InvariantViolation>)
        requires
            self@.wf(),
            self@.fits(src@, dst@),
        ensures
            r is Ok <==> self@.valid(src@, dst@),
            r matches Err(InvariantViolation::Kind { src: s, dst: d }) ==> s.0 < src@.len()
                && self@.image(s) == Some(d) && src@.kind_id(s) != dst@.kind_id(d),
            r matches Err(InvariantViolation::Ancestry { ancestor, descendant }) ==> {
                &&& self@.kinds_agree(src@, dst@)
                &&& descendant.0 < src@.len()
                &&& ancestor.0 < src@.len()
                &&& src@.is_anc(ancestor, descendant)
                &&& self@.image(ancestor) is Some
                &&& self@.image(descendant) is Some
                &&& !dst@.is_anc(self@.image(ancestor).unwrap(), self@.image(descendant).unwrap())
            },
            r matches Err(InvariantViolation::Order { first, second }) ==> {
                &&& self@.kinds_agree(src@, dst@)
                &&& self@.ancestry_kept(src@, dst@)
                &&& exists|p: NodeId, k1: int, k2: int|
                    src@.valid(p) && 0 <= k1 < k2 < src@.children(p).len()
                        && src@.children(p)[k1] == first && src@.children(p)[k2] == second
                        && self@.image(first) is Some && self@.image(second) is Some
                        && self@.image(second).unwrap().0 <= self@.image(first).unwrap().0
            },
    {
        proof {
            use_type_invariant(src);
            use_type_invariant(dst);
        }
        let n = self.src_to_dst.len();
        // Matched pairs share a kind.
        let mut i: usize = 0;
        while i < n
            invariant
                n == self@.fwd.len() == src@.len(),
                self@.fits(src@, dst@),
                self@.wf(),
                i <= n,
                forall|k: int|
                    #![trigger self@.fwd[k]]
                    0 <= k < i && self@.fwd[k] is Some ==> src@.kind_id(NodeId(k as usize))
                        == dst@.kind_id(self@.fwd[k].unwrap()),
            decreases n - i,
        {
            if let Some(d) = self.src_to_dst[i] {
                if src.kind_id(NodeId(i)) != dst.kind_id(d) {
                    return Err(InvariantViolation::Kind { src: NodeId(i), dst: d });
                }
            }
            i = i + 1;
        }
        // Every matched proper ancestor's image is a proper ancestor of
        // the image.
        let mut i: usize = 0;
        while i < n
            invariant
                n == self@.fwd.len() == src@.len(),
                self@.fits(src@, dst@),
                self@.wf(),
                self@.kinds_agree(src@, dst@),
                src@.wf(),
                i <= n,
                forall|s: NodeId, a: NodeId|
                    #![trigger src@.is_anc(a, s), self@.fwd[s.0 as int], self@.fwd[a.0 as int]]
                    s.0 < i && a.0 < n && self@.fwd[s.0 as int] is Some && self@.fwd[a.0 as int] is Some
                        && src@.is_anc(a, s) ==> dst@.is_anc(
                        self@.fwd[a.0 as int].unwrap(),
                        self@.fwd[s.0 as int].unwrap(),
                    ),
            decreases n - i,
        {
            let s = NodeId(i);
            if let Some(d) = self.src_to_dst[i] {
                let mut cur = s;
                loop
                    invariant
                        n == self@.fwd.len() == src@.len(),
                        self@.fits(src@, dst@),
                        self@.wf(),
                        self@.kinds_agree(src@, dst@),
                        src@.wf(),
                        i < n,
                        s == NodeId(i),
                        self@.fwd[i as int] == Some(d),
                        cur.0 < n,
                        cur.0 <= i,
                        forall|a: NodeId|
                            #![trigger src@.is_anc(a, s)]
                            a.0 < n && self@.fwd[a.0 as int] is Some && src@.is_anc(a, s)
                                && !src@.is_anc(a, cur) ==> dst@.is_anc(
                                self@.fwd[a.0 as int].unwrap(),
                                d,
                            ),
                        cur != s ==> src@.is_anc(cur, s),
                    ensures
                        forall|a: NodeId|
                            #![trigger src@.is_anc(a, s)]
                            a.0 < n && self@.fwd[a.0 as int] is Some && src@.is_anc(a, s)
                                ==> dst@.is_anc(self@.fwd[a.0 as int].unwrap(), d),
                    decreases cur.0,
                {
                    let up = src.parent(cur);
                    match up {
                        None => {
                            proof {
                                assert forall|a: NodeId| !src@.is_anc(a, cur) by {}
                            }
                            break;
                        },
                        Some(ancestor) => {
                            proof {
                                if cur.0 == 0 {
                                    assert(src@.nodes[0].parent is None);
                                }
                                assert(src@.nodes[cur.0 as int].parent matches Some(p) && p.0 < cur.0);
                            }
                            if let Some(ancestor_image) = self.src_to_dst[ancestor.0] {
                                if !is_ancestor(dst, ancestor_image, d) {
                                    proof {
                                        lemma_is_anc_trans(src@, ancestor, cur, s);
                                    }
                                    return Err(InvariantViolation::Ancestry { ancestor, descendant: s });
                                }
                            }
                            proof {
                                lemma_is_anc_trans(src@, ancestor, cur, s);
                            }
                            cur = ancestor;
                        },
                    }
                }
            }
            i = i + 1;
        }
        // Matched same-parent siblings keep their order in the
        // destination's document order.
        let mut p: usize = 0;
        while p < n
            invariant
                n == self@.fwd.len() == src@.len(),
                self@.fits(src@, dst@),
                self@.wf(),
                self@.kinds_agree(src@, dst@),
                self@.ancestry_kept(src@, dst@),
                src@.wf(),
                p <= n,
                forall|q: NodeId, k1: int, k2: int|
                    #![trigger src@.children(q)[k1], src@.children(q)[k2]]
                    q.0 < p && 0 <= k1 < k2 < src@.children(q).len() && self@.image(
                        src@.children(q)[k1],
                    ) is Some && self@.image(src@.children(q)[k2]) is Some ==> self@.image(
                        src@.children(q)[k1],
                    ).unwrap().0 < self@.image(src@.children(q)[k2]).unwrap().0,
            decreases n - p,
        {
            let parent = NodeId(p);
            let children = src.children(parent);
            let mut prev: Option<(NodeId, NodeId)> = None;
            let ghost mut prev_k: int = 0;
            let mut k: usize = 0;
            while k < children.len()
                invariant
                    n == self@.fwd.len() == src@.len(),
                    self@.fits(src@, dst@),
                    self@.wf(),
                    self@.kinds_agree(src@, dst@),
                    self@.ancestry_kept(src@, dst@),
                    src@.wf(),
                    p < n,
                    parent == NodeId(p),
                    children@ == src@.children(parent),
                    k <= children@.len(),
                    forall|k1: int, k2: int|
                        #![trigger children@[k1], children@[k2]]
                        0 <= k1 < k2 < k && self@.image(children@[k1]) is Some && self@.image(
                            children@[k2],
                        ) is Some ==> self@.image(children@[k1]).unwrap().0 < self@.image(
                            children@[k2],
                        ).unwrap().0,
                    prev is None ==> forall|k1: int| 0 <= k1 < k ==> self@.image(#[trigger] children@[k1]) is None,
                    prev matches Some(pp) ==> {
                        &&& 0 <= prev_k < k
                        &&& children@[prev_k] == pp.0
                        &&& self@.image(pp.0) == Some(pp.1)
                        &&& forall|k1: int|
                            0 <= k1 < k && self@.image(#[trigger] children@[k1]) is Some ==> self@.image(
                                children@[k1],
                            ).unwrap().0 <= pp.1.0
                    },
                decreases children@.len() - k,
            {
                let child = children[k];
                proof {
                    assert(src@.nodes[p as int].children[k as int] == child);
                }
                if let Some(child_image) = self.src_to_dst[child.0] {
                    if let Some((prev_child, prev_image)) = prev {
                        if child_image.0 <= prev_image.0 {
                            proof {
                                assert(src@.valid(parent) && 0 <= prev_k < k < src@.children(parent).len()
                                    && src@.children(parent)[prev_k] == prev_child
                                    && src@.children(parent)[k as int] == child);
                            }
                            return Err(InvariantViolation::Order { first: prev_child, second: child });
                        }
                    }
                    prev = Some((child, child_image));
                    proof {
                        prev_k = k as int;
                    }
                }
                k = k + 1;
            }
            p = p + 1;
        }
        Ok(())
    }
}

/// Every matched pair roots two identical subtrees.
pub open spec fn pairs_identical(m: MatchingView, src: TreeView, dst: TreeView) -> bool {
    forall|i: int|
        #![trigger m.fwd[i]]
        0 <= i < m.fwd.len() && m.fwd[i] is Some ==> src.subtree_eq(
            NodeId(i as usize),
            dst,
            m.fwd[i].unwrap(),
        )
}

/// `n` is the only node of `t` whose subtree hashes to `h`.
pub open spec fn unique_node(t: TreeView, h: u64, n: NodeId) -> bool {
    &&& t.valid(n)
    &&& t.hash(n) == h
    &&& forall|x: NodeId| #[trigger] t.valid(x) && t.hash(x) == h ==> x == n
}

/// Maps each subtree hash to its node when it occurs exactly once, or
/// `None` when duplicated.
fn unique_subtrees(tree: &Tree) -> (map: HashMap<u64, Option<NodeId>>)
    ensures
        forall|h: u64|
            #![trigger map@.contains_key(h)]
            map@.contains_key(h) <==> exists|x: NodeId| tree@.valid(x) && #[trigger] tree@.hash(x) == h,
        forall|h: u64, n: NodeId|
            #![trigger map@[h], unique_node(tree@, h, n)]
            map@.contains_key(h) ==> (map@[h] == Some(n) <==> unique_node(tree@, h, n)),
{
    broadcast use vstd::std_specs::hash::group_hash_axioms;

    let mut map: HashMap<u64, Option<NodeId>> = HashMap::new();
    let n = tree.node_count();
    let mut i: usize = 0;
    while i < n
        invariant
            n == tree@.len(),
            i <= n,
            forall|h: u64|
                #![trigger map@.contains_key(h)]
                map@.contains_key(h) <==> exists|x: NodeId| x.0 < i && #[trigger] tree@.hash(x) == h,
            forall|h: u64|
                #![trigger map@[h]]
                map@.contains_key(h) ==> match map@[h] {
                    Some(y) => y.0 < i && tree@.hash(y) == h && forall|x: NodeId|
                        x.0 < i && #[trigger] tree@.hash(x) == h ==> x == y,
                    None => exists|x1: NodeId, x2: NodeId|
                        x1.0 < i && x2.0 < i && x1 != x2 && #[trigger] tree@.hash(x1) == h
                            && #[trigger] tree@.hash(x2) == h,
                },
        decreases n - i,
    {
        let node = NodeId(i);
        let h = tree.hash(node);
        let ghost before = map@;
        if map.contains_key(&h) {
            let ghost prev = before[h];
            map.insert(h, None);
            proof {
                if let Some(y) = prev {
                    assert(y != node);
                    assert(tree@.hash(y) == h && tree@.hash(node) == h);
                } else {
                    let (x1, x2) = choose|x1: NodeId, x2: NodeId|
                        x1.0 < i && x2.0 < i && x1 != x2 && #[trigger] tree@.hash(x1) == h
                            && #[trigger] tree@.hash(x2) == h;
                    assert(tree@.hash(x1) == h && tree@.hash(x2) == h);
                }
                assert forall|g: u64| #[trigger] map@.contains_key(g) implies map@[g] == before[g] || g == h by {}
            }
        } else {
            map.insert(h, Some(node));
            proof {
                assert forall|x: NodeId| x.0 < i + 1 && #[trigger] tree@.hash(x) == h implies x == node by {
                    if x.0 < i {
                        assert(!before.contains_key(h));
                    }
                }
            }
        }
        i = i + 1;
    }
    proof {
        assert forall|h: u64, m: NodeId|
            #![trigger map@[h], unique_node(tree@, h, m)]
            map@.contains_key(h) implies (map@[h] == Some(m) <==> unique_node(tree@, h, m)) by {
            if let Some(y) = map@[h] {
                if unique_node(tree@, h, m) {
                    assert(tree@.valid(y) && tree@.hash(y) == h);
                }
            } else {
                if unique_node(tree@, h, m) {
                    let (x1, x2) = choose|x1: NodeId, x2: NodeId|
                        x1.0 < n && x2.0 < n && x1 != x2 && #[trigger] tree@.hash(x1) == h
                            && #[trigger] tree@.hash(x2) == h;
                    assert(tree@.valid(x1) && tree@.valid(x2));
                }
            }
        }
    }
    map
}

/// Node counts per subtree, indexed like the arena (saturating at
/// `usize::MAX`).
fn subtree_sizes(tree: &Tree) -> (sizes: Vec<usize>)
    ensures
        sizes@.len() == tree@.len(),
{
    let n = tree.node_count();
    let mut sizes: Vec<usize> = Vec::new();
    let mut i: usize = 0;
    while i < n
        invariant
            i <= n,
            sizes@.len() == i,
        decreases n - i,
    {
        sizes.push(1);
        i = i + 1;
    }
    // Reverse pre-order: children are summed before their parent reads.
    let mut i = n;
    while i > 0
        invariant
            n == tree@.len(),
            i <= n,
            sizes@.len() == n,
        decreases i,
    {
        i = i - 1;
        let children = tree.children(NodeId(i));
        let mut total: usize = 1;
        let mut k: usize = 0;
        while k < children.len()
            invariant
                sizes@.len() == n,
                k <= children@.len(),
            decreases children@.len() - k,
        {
            let child = children[k];
            let size = if child.0 < sizes.len() {
                sizes[child.0]
            } else {
                0
            };
            total = total.saturating_add(size);
            k = k + 1;
        }
        sizes.set(i, total);
    }
    sizes
}

spec fn pair_key(p: (NodeId, NodeId)) -> usize {
    p.0.0
}

/// The zipped child pairs of `x` and `y`, appended to `stack`.
fn push_child_pairs(stack: &mut Vec<(NodeId, NodeId)>, src: &Tree, x: NodeId, dst: &Tree, y: NodeId)
    requires
        src@.valid(x),
        dst@.valid(y),
        src@.children(x).len() == dst@.children(y).len(),
    ensures
        final(stack)@ == old(stack)@ + Seq::new(
            src@.children(x).len(),
            |k: int| (src@.children(x)[k], dst@.children(y)[k]),
        ),
{
    let cx = src.children(x);
    let cy = dst.children(y);
    let ghost base = stack@;
    let mut k: usize = 0;
    while k < cx.len()
        invariant
            cx@ == src@.children(x),
            cy@ == dst@.children(y),
            cx@.len() == cy@.len(),
            k <= cx@.len(),
            stack@ == base + Seq::new(k as nat, |j: int| (cx@[j], cy@[j])),
        decreases cx@.len() - k,
    {
        stack.push((cx[k], cy[k]));
        k = k + 1;
        proof {
            assert(stack@ =~= base + Seq::new(k as nat, |j: int| (cx@[j], cy@[j])));
        }
    }
    proof {
        assert(stack@ =~= base + Seq::new(
            src@.children(x).len(),
            |k: int| (src@.children(x)[k], dst@.children(y)[k]),
        ));
    }
}

/// The child pairs pushed for a node lie above it in arena order.
proof fn lemma_child_pairs_above(
    t: TreeView,
    x: NodeId,
    other: Seq<NodeId>,
    key: spec_fn((NodeId, NodeId)) -> usize,
)
    requires
        t.arena_wf(),
        t.valid(x),
        other.len() == t.children(x).len(),
        forall|p: (NodeId, NodeId)| #[trigger] key(p) == p.0.0,
    ensures
        crate::walk::above(
            t.len(),
            x.0,
            Seq::new(t.children(x).len(), |k: int| (t.children(x)[k], other[k])).map_values(key),
        ),
{
    let s = Seq::new(t.children(x).len(), |k: int| (t.children(x)[k], other[k])).map_values(key);
    assert forall|k: int| 0 <= k < s.len() implies x.0 < #[trigger] s[k] <= t.len() by {
        assert(t.nodes[x.0 as int].children[k] == t.children(x)[k]);
    }
    assert forall|k1: int, k2: int| 0 <= k1 < k2 < s.len() implies #[trigger] s[k1] < #[trigger] s[k2] by {
        assert(t.nodes[x.0 as int].children[k1] == t.children(x)[k1]);
        assert(t.nodes[x.0 as int].children[k2] == t.children(x)[k2]);
    }
}

/// Whether two subtrees are equal in kind, label, and shape.
pub fn structural_eq(src: &Tree, s: NodeId, dst: &Tree, d: NodeId) -> (r: bool)
    requires
        src@.valid(s),
        dst@.valid(d),
    ensures
        r == src@.subtree_eq(s, dst@, d),
{
    proof {
        use_type_invariant(src);
        use_type_invariant(dst);
    }
    let mut stack: Vec<(NodeId, NodeId)> = Vec::new();
    stack.push((s, d));
    let ghost key = |p: (NodeId, NodeId)| pair_key(p);
    proof {
        assert(stack@[0] == (s, d));
    }
    loop
        invariant
            forall|p: (NodeId, NodeId)| #[trigger] key(p) == p.0.0,
            src@.wf(),
            dst@.wf(),
            forall|k: int| 0 <= k < stack@.len() ==> src@.valid((#[trigger] stack@[k]).0) && dst@.valid(stack@[k].1),
            src@.subtree_eq(s, dst@, d) <==> forall|k: int|
                0 <= k < stack@.len() ==> src@.subtree_eq((#[trigger] stack@[k]).0, dst@, stack@[k].1),
        decreases weight(src@.len(), stack@, key),
    {
        let ghost before = stack@;
        let top = stack.pop();
        match top {
            None => return true,
            Some((x, y)) => {
                proof {
                    assert(before == stack@.push((x, y)));
                    assert(before[before.len() - 1] == (x, y));
                }
                if src.kind_id(x) != dst.kind_id(y) || !opt_str_eq(src.label(x), dst.label(y))
                    || src.children(x).len() != dst.children(y).len() {
                    proof {
                        assert(!src@.subtree_eq(x, dst@, y));
                    }
                    return false;
                }
                let ghost rest = stack@;
                push_child_pairs(&mut stack, src, x, dst, y);
                proof {
                    let kids = Seq::new(src@.children(x).len(), |k: int| (src@.children(x)[k], dst@.children(y)[k]));
                    lemma_child_pairs_above(src@, x, dst@.children(y), key);
                    lemma_pop_push(src@.len(), rest, (x, y), kids, key);
                    assert forall|k: int| 0 <= k < kids.len() implies src@.valid((#[trigger] kids[k]).0)
                        && dst@.valid(kids[k].1) by {
                        assert(src@.nodes[x.0 as int].children[k] == src@.children(x)[k]);
                        assert(dst@.nodes[y.0 as int].children[k] == dst@.children(y)[k]);
                    }
                    assert forall|k: int| 0 <= k < kids.len() implies s.0 < 0 || (x.0 < (#[trigger] kids[k]).0.0 < src@.len()) by {
                        assert(src@.nodes[x.0 as int].children[k] == src@.children(x)[k]);
                    }
                    if forall|k: int| 0 <= k < kids.len() ==> src@.subtree_eq((#[trigger] kids[k]).0, dst@, kids[k].1) {
                        assert forall|k: int| 0 <= k < src@.children(x).len() implies {
                            &&& x.0 < (#[trigger] src@.children(x)[k]).0 < src@.nodes.len()
                            &&& src@.subtree_eq(src@.children(x)[k], dst@, dst@.children(y)[k])
                        } by {
                            assert(kids[k].0 == src@.children(x)[k]);
                            assert(src@.nodes[x.0 as int].children[k] == src@.children(x)[k]);
                        }
                        assert(src@.subtree_eq(x, dst@, y));
                    }
                    if src@.subtree_eq(x, dst@, y) {
                        assert forall|k: int| 0 <= k < kids.len() implies src@.subtree_eq((#[trigger] kids[k]).0, dst@, kids[k].1) by {
                            assert(kids[k].0 == src@.children(x)[k]);
                        }
                    }
                    assert(src@.subtree_eq(x, dst@, y) <==> forall|k: int|
                        0 <= k < kids.len() ==> src@.subtree_eq((#[trigger] kids[k]).0, dst@, kids[k].1));
                    assert forall|k: int| 0 <= k < stack@.len() implies src@.valid((#[trigger] stack@[k]).0)
                        && dst@.valid(stack@[k].1) by {
                        if k < rest.len() {
                            assert(stack@[k] == before[k]);
                        } else {
                            assert(stack@[k] == kids[k - rest.len()]);
                        }
                    }
                    assert((forall|k: int| 0 <= k < stack@.len() ==> src@.subtree_eq((#[trigger] stack@[k]).0, dst@, stack@[k].1))
                        <==> (forall|k: int| 0 <= k < before.len() ==> src@.subtree_eq((#[trigger] before[k]).0, dst@, before[k].1))) by {
                        if forall|k: int| 0 <= k < stack@.len() ==> src@.subtree_eq((#[trigger] stack@[k]).0, dst@, stack@[k].1) {
                            assert forall|k: int| 0 <= k < kids.len() implies src@.subtree_eq((#[trigger] kids[k]).0, dst@, kids[k].1) by {
                                assert(stack@[rest.len() + k] == kids[k]);
                            }
                            assert forall|k: int| 0 <= k < before.len() implies src@.subtree_eq((#[trigger] before[k]).0, dst@, before[k].1) by {
                                if k < rest.len() {
                                    assert(stack@[k] == before[k]);
                                }
                            }
                        }
                        if forall|k: int| 0 <= k < before.len() ==> src@.subtree_eq((#[trigger] before[k]).0, dst@, before[k].1) {
                            assert(src@.subtree_eq(before[before.len() - 1].0, dst@, before[before.len() - 1].1));
                            assert forall|k: int| 0 <= k < stack@.len() implies src@.subtree_eq((#[trigger] stack@[k]).0, dst@, stack@[k].1) by {
                                if k < rest.len() {
                                    assert(stack@[k] == before[k]);
                                } else {
                                    assert(stack@[k] == kids[k - rest.len()]);
                                }
                            }
                        }
                    }
                }
            },
        }
    }
}

/// The image of src node `i` after matching the subtree at `s` onto the
/// structurally equal one at `d` over `m`: the subtree pairs
/// positionally, and pairs that led into the subtree at `d` from outside
/// are unlinked.
pub open spec fn overlay_image(src: TreeView, dst: TreeView, s: NodeId, d: NodeId, m: MatchingView, i: int) -> Option<
    NodeId,
> {
    let n = NodeId(i as usize);
    if anc_or_self(src.nodes, s, n) {
        Some(pos_image(src, dst, s, d, n))
    } else {
        match m.fwd[i] {
            Some(v) => if anc_or_self(dst.nodes, d, v) {
                None
            } else {
                Some(v)
            },
            None => None,
        }
    }
}

/// One step of [`match_subtree`] keeps its bookkeeping: every node of
/// the subtree at `s` is paired positionally or still pending under a
/// stack entry, and every node outside keeps its pair or lost one that
/// led into the subtree at `d`.
proof fn lemma_subtree_step(
    src: TreeView,
    dst: TreeView,
    s: NodeId,
    d: NodeId,
    m0: MatchingView,
    mb: MatchingView,
    ma: MatchingView,
    before: Seq<(NodeId, NodeId)>,
    rest: Seq<(NodeId, NodeId)>,
    after: Seq<(NodeId, NodeId)>,
    x: NodeId,
    y: NodeId,
)
    requires
        src.wf(),
        dst.wf(),
        src.subtree_eq(s, dst, d),
        mb.wf(),
        mb.fits(src, dst),
        m0.fits(src, dst),
        before == rest.push((x, y)),
        after == rest + Seq::new(src.children(x).len(), |k: int| (src.children(x)[k], dst.children(y)[k])),
        forall|k: int|
            0 <= k < before.len() ==> anc_or_self(src.nodes, s, (#[trigger] before[k]).0) && before[k].1
                == pos_image(src, dst, s, d, before[k].0),
        forall|n: NodeId|
            #![trigger pos_image(src, dst, s, d, n)]
            anc_or_self(src.nodes, s, n) ==> mb.fwd[n.0 as int] == Some(pos_image(src, dst, s, d, n)) || exists|k: int|
                0 <= k < before.len() && anc_or_self(src.nodes, (#[trigger] before[k]).0, n),
        forall|i: int|
            #![trigger mb.fwd[i]]
            0 <= i < src.len() && !anc_or_self(src.nodes, s, NodeId(i as usize)) ==> mb.fwd[i] == m0.fwd[i] || (
            mb.fwd[i] is None && (m0.fwd[i] matches Some(v) ==> anc_or_self(dst.nodes, d, v))),
        ma.wf(),
        ma.fwd.len() == mb.fwd.len(),
        ma.image(x) == Some(y),
        forall|i: int|
            0 <= i < mb.fwd.len() && i != x.0 ==> #[trigger] ma.fwd[i] == (if mb.fwd[i] == Some(y) {
                None
            } else {
                mb.fwd[i]
            }),
    ensures
        forall|k: int|
            0 <= k < after.len() ==> anc_or_self(src.nodes, s, (#[trigger] after[k]).0) && after[k].1
                == pos_image(src, dst, s, d, after[k].0),
        forall|n: NodeId|
            #![trigger pos_image(src, dst, s, d, n)]
            anc_or_self(src.nodes, s, n) ==> ma.fwd[n.0 as int] == Some(pos_image(src, dst, s, d, n)) || exists|k: int|
                0 <= k < after.len() && anc_or_self(src.nodes, (#[trigger] after[k]).0, n),
        forall|i: int|
            #![trigger ma.fwd[i]]
            0 <= i < src.len() && !anc_or_self(src.nodes, s, NodeId(i as usize)) ==> ma.fwd[i] == m0.fwd[i] || (
            ma.fwd[i] is None && (m0.fwd[i] matches Some(v) ==> anc_or_self(dst.nodes, d, v))),
{
    let last = before.len() - 1;
    assert(before[last] == (x, y));
    assert(anc_or_self(src.nodes, s, x) && y == pos_image(src, dst, s, d, x));
    crate::embed::lemma_pos_equal(src, dst, s, d, x);
    let kids = Seq::new(src.children(x).len(), |k: int| (src.children(x)[k], dst.children(y)[k]));
    // y lies in the subtree at d.
    assert(anc_or_self(dst.nodes, d, y)) by {
        if x != s {
            crate::embed::lemma_pos_anc(src, dst, s, d, s, x);
        }
    }
    assert forall|k: int| 0 <= k < after.len() implies anc_or_self(src.nodes, s, (#[trigger] after[k]).0) && after[k].1
        == pos_image(src, dst, s, d, after[k].0) by {
        if k < rest.len() {
            assert(after[k] == before[k]);
        } else {
            let j = k - rest.len();
            assert(after[k] == kids[j]);
            let c = src.children(x)[j];
            crate::embed::lemma_child_parent(src, x, j);
            crate::embed::lemma_anc_or_self_trans(src, s, x, c);
            crate::embed::lemma_anc_before(src, x, c);
            if s != x {
                crate::embed::lemma_anc_before(src, s, x);
            }
            crate::embed::lemma_pos_equal(src, dst, s, d, c);
        }
    }
    assert forall|n: NodeId|
        #![trigger pos_image(src, dst, s, d, n)]
        anc_or_self(src.nodes, s, n) implies ma.fwd[n.0 as int] == Some(pos_image(src, dst, s, d, n)) || exists|k: int|
            0 <= k < after.len() && anc_or_self(src.nodes, (#[trigger] after[k]).0, n) by {
        if n == x {
        } else if mb.fwd[n.0 as int] == Some(pos_image(src, dst, s, d, n)) {
            if pos_image(src, dst, s, d, n) == y {
                crate::embed::lemma_pos_injective(src, dst, s, d, n, x);
            }
            assert(n.0 < mb.fwd.len()) by {
                if n != s {
                    crate::embed::lemma_anc_before(src, s, n);
                }
            }
        } else {
            let k = choose|k: int| 0 <= k < before.len() && anc_or_self(src.nodes, (#[trigger] before[k]).0, n);
            if k < rest.len() {
                assert(after[k] == before[k]);
            } else {
                assert(before[k] == (x, y));
                crate::embed::lemma_child_toward(src, x, n);
                let j = choose|j: int| 0 <= j < src.children(x).len() && anc_or_self(src.nodes, #[trigger] src.children(x)[j], n);
                assert(after[rest.len() + j] == kids[j]);
                assert(anc_or_self(src.nodes, after[rest.len() + j].0, n));
            }
        }
    }
    assert forall|i: int|
        #![trigger ma.fwd[i]]
        0 <= i < src.len() && !anc_or_self(src.nodes, s, NodeId(i as usize)) implies ma.fwd[i] == m0.fwd[i] || (
        ma.fwd[i] is None && (m0.fwd[i] matches Some(v) ==> anc_or_self(dst.nodes, d, v))) by {
        assert(i != x.0);
        assert(mb.fwd[i] == m0.fwd[i] || (mb.fwd[i] is None && (m0.fwd[i] matches Some(v) ==> anc_or_self(dst.nodes, d, v))));
    }
}

/// Matches two structurally equal subtrees pairwise, top to bottom.
fn match_subtree(m: &mut Matching, src: &Tree, s: NodeId, dst: &Tree, d: NodeId)
    requires
        old(m)@.wf(),
        old(m)@.fits(src@, dst@),
        src@.subtree_eq(s, dst@, d),
    ensures
        final(m)@.wf(),
        final(m)@.fits(src@, dst@),
        final(m)@.image(s) == Some(d),
        forall|i: int|
            #![trigger final(m)@.fwd[i]]
            0 <= i < final(m)@.fwd.len() && final(m)@.fwd[i] is Some ==> final(m)@.fwd[i]
                == old(m)@.fwd[i] || src@.subtree_eq(NodeId(i as usize), dst@, final(m)@.fwd[i].unwrap()),
        forall|i: int|
            #![trigger final(m)@.fwd[i]]
            0 <= i < s.0 && (old(m)@.fwd[i] matches Some(z) && z.0 < d.0) ==> final(m)@.fwd[i]
                == old(m)@.fwd[i],
        forall|i: int|
            #![trigger final(m)@.fwd[i]]
            0 <= i < src@.len() ==> final(m)@.fwd[i] == overlay_image(src@, dst@, s, d, old(m)@, i),
{
    proof {
        use_type_invariant(src);
        use_type_invariant(dst);
    }
    let ghost m0 = m@;
    let mut stack: Vec<(NodeId, NodeId)> = Vec::new();
    stack.push((s, d));
    let ghost key = |p: (NodeId, NodeId)| pair_key(p);
    let ghost mut first = true;
    proof {
        assert(stack@[0] == (s, d));
    }
    loop
        invariant
            forall|p: (NodeId, NodeId)| #[trigger] key(p) == p.0.0,
            src@.wf(),
            dst@.wf(),
            m@.wf(),
            m@.fits(src@, dst@),
            m0.fits(src@, dst@),
            src@.subtree_eq(s, dst@, d),
            forall|k: int| 0 <= k < stack@.len() ==> src@.subtree_eq((#[trigger] stack@[k]).0, dst@, stack@[k].1),
            first ==> stack@ == seq![(s, d)] && m@ == m0,
            !first ==> m@.image(s) == Some(d),
            !first ==> forall|k: int| 0 <= k < stack@.len() ==> s.0 < (#[trigger] stack@[k]).0.0 && d.0 < stack@[k].1.0,
            forall|i: int|
                #![trigger m@.fwd[i]]
                0 <= i < m@.fwd.len() && m@.fwd[i] is Some ==> m@.fwd[i] == m0.fwd[i]
                    || src@.subtree_eq(NodeId(i as usize), dst@, m@.fwd[i].unwrap()),
            forall|k: int| 0 <= k < stack@.len() ==> s.0 <= (#[trigger] stack@[k]).0.0 && d.0 <= stack@[k].1.0,
            forall|i: int|
                #![trigger m@.fwd[i]]
                0 <= i < s.0 && (m0.fwd[i] matches Some(z) && z.0 < d.0) ==> m@.fwd[i] == m0.fwd[i],
            forall|k: int|
                0 <= k < stack@.len() ==> anc_or_self(src@.nodes, s, (#[trigger] stack@[k]).0) && stack@[k].1
                    == pos_image(src@, dst@, s, d, stack@[k].0),
            forall|n: NodeId|
                #![trigger pos_image(src@, dst@, s, d, n)]
                anc_or_self(src@.nodes, s, n) ==> m@.fwd[n.0 as int] == Some(pos_image(src@, dst@, s, d, n))
                    || exists|k: int| 0 <= k < stack@.len() && anc_or_self(src@.nodes, (#[trigger] stack@[k]).0, n),
            forall|i: int|
                #![trigger m@.fwd[i]]
                0 <= i < src@.len() && !anc_or_self(src@.nodes, s, NodeId(i as usize)) ==> m@.fwd[i] == m0.fwd[i]
                    || (m@.fwd[i] is None && (m0.fwd[i] matches Some(v) ==> anc_or_self(dst@.nodes, d, v))),
        ensures
            m@.wf(),
            m@.fits(src@, dst@),
            m@.image(s) == Some(d),
            forall|i: int|
                #![trigger m@.fwd[i]]
                0 <= i < m@.fwd.len() && m@.fwd[i] is Some ==> m@.fwd[i] == m0.fwd[i]
                    || src@.subtree_eq(NodeId(i as usize), dst@, m@.fwd[i].unwrap()),
            forall|i: int|
                #![trigger m@.fwd[i]]
                0 <= i < s.0 && (m0.fwd[i] matches Some(z) && z.0 < d.0) ==> m@.fwd[i] == m0.fwd[i],
            forall|n: NodeId|
                #![trigger pos_image(src@, dst@, s, d, n)]
                anc_or_self(src@.nodes, s, n) ==> m@.fwd[n.0 as int] == Some(pos_image(src@, dst@, s, d, n)),
            forall|i: int|
                #![trigger m@.fwd[i]]
                0 <= i < src@.len() && !anc_or_self(src@.nodes, s, NodeId(i as usize)) ==> m@.fwd[i] == m0.fwd[i]
                    || (m@.fwd[i] is None && (m0.fwd[i] matches Some(v) ==> anc_or_self(dst@.nodes, d, v))),
        decreases weight(src@.len(), stack@, key),
    {
        let ghost before = stack@;
        let top = stack.pop();
        match top {
            None => {
                proof {
                    if first {
                        assert(before.len() == 1);
                    }
                    assert forall|n: NodeId|
                        #![trigger pos_image(src@, dst@, s, d, n)]
                        anc_or_self(src@.nodes, s, n) implies m@.fwd[n.0 as int] == Some(
                        pos_image(src@, dst@, s, d, n),
                    ) by {
                        assert(before.len() == 0);
                    }
                }
                break;
            },
            Some((x, y)) => {
                proof {
                    assert(before == stack@.push((x, y)));
                    assert(before[before.len() - 1] == (x, y));
                }
                let ghost mb = m@;
                m.insert(x, y);
                proof {
                    assert forall|i: int|
                        #![trigger m@.fwd[i]]
                        0 <= i < s.0 && (m0.fwd[i] matches Some(z) && z.0 < d.0) implies m@.fwd[i] == m0.fwd[i] by {
                        assert(mb.fwd[i] == m0.fwd[i]);
                        assert(s.0 <= x.0 && d.0 <= y.0);
                    }
                    assert forall|i: int|
                        #![trigger m@.fwd[i]]
                        0 <= i < m@.fwd.len() && m@.fwd[i] is Some implies m@.fwd[i] == m0.fwd[i]
                            || src@.subtree_eq(NodeId(i as usize), dst@, m@.fwd[i].unwrap()) by {
                        if i != x.0 {
                            assert(m@.fwd[i] == mb.fwd[i]);
                        }
                    }
                    if !first {
                        assert(x.0 != s.0 && y.0 != d.0);
                        assert(mb.fwd[s.0 as int] == Some(d));
                    }
                }
                let ghost rest = stack@;
                push_child_pairs(&mut stack, src, x, dst, y);
                proof {
                    lemma_subtree_step(src@, dst@, s, d, m0, mb, m@, before, rest, stack@, x, y);
                    let kids = Seq::new(src@.children(x).len(), |k: int| (src@.children(x)[k], dst@.children(y)[k]));
                    lemma_child_pairs_above(src@, x, dst@.children(y), key);
                    lemma_pop_push(src@.len(), rest, (x, y), kids, key);
                    assert forall|k: int| 0 <= k < kids.len() implies {
                        &&& src@.subtree_eq((#[trigger] kids[k]).0, dst@, kids[k].1)
                        &&& x.0 < kids[k].0.0
                        &&& y.0 < kids[k].1.0
                    } by {
                        assert(kids[k].0 == src@.children(x)[k]);
                        assert(kids[k].1 == dst@.children(y)[k]);
                        assert(src@.nodes[x.0 as int].children[k] == src@.children(x)[k]);
                        assert(dst@.nodes[y.0 as int].children[k] == dst@.children(y)[k]);
                    }
                    assert forall|k: int| 0 <= k < stack@.len() implies {
                        &&& src@.subtree_eq((#[trigger] stack@[k]).0, dst@, stack@[k].1)
                        &&& s.0 < stack@[k].0.0
                        &&& d.0 < stack@[k].1.0
                        &&& s.0 <= stack@[k].0.0
                        &&& d.0 <= stack@[k].1.0
                    } by {
                        if k < rest.len() {
                            assert(stack@[k] == before[k]);
                            if first {
                                assert(false);
                            }
                        } else {
                            assert(stack@[k] == kids[k - rest.len()]);
                            if !first {
                                assert(s.0 < x.0 && d.0 < y.0);
                            } else {
                                assert(x == s && y == d);
                            }
                        }
                    }
                    first = false;
                }
            },
        }
    }
    proof {
        assert forall|i: int|
            #![trigger m@.fwd[i]]
            0 <= i < src@.len() implies m@.fwd[i] == overlay_image(src@, dst@, s, d, m0, i) by {
            let n = NodeId(i as usize);
            if anc_or_self(src@.nodes, s, n) {
                assert(m@.fwd[n.0 as int] == Some(pos_image(src@, dst@, s, d, n)));
            } else if let Some(v) = m0.fwd[i] {
                if anc_or_self(dst@.nodes, d, v) && m@.fwd[i] == Some(v) {
                    crate::embed::lemma_pos_onto(src@, dst@, s, d, v);
                    let u = choose|u: NodeId| anc_or_self(src@.nodes, s, u) && #[trigger] pos_image(src@, dst@, s, d, u) == v;
                    assert(m@.fwd[u.0 as int] == Some(v));
                    assert(m@.bwd[v.0 as int] == Some(u));
                    assert(m@.bwd[v.0 as int] == Some(n));
                }
            }
        }
    }
}

/// An anchor candidate: a src subtree whose hash occurs nowhere else in
/// src, paired with the one dst subtree of that hash.
pub open spec fn anchor_candidate(src: TreeView, dst: TreeView, b: (NodeId, NodeId)) -> bool {
    &&& unique_node(src, src.hash(b.0), b.0)
    &&& unique_node(dst, src.hash(b.0), b.1)
}

/// The size the anchor pass records for a candidate's src node.
spec fn cand_size(sizes: Seq<usize>, s: NodeId) -> int {
    if s.0 < sizes.len() {
        sizes[s.0 as int] as int
    } else {
        0
    }
}

/// `b` stands in the way of adding the candidate `c` beside it: one
/// subtree holds the other on either side, or the two sit in opposite
/// document orders in the two trees.
pub open spec fn blocked_by(src: TreeView, dst: TreeView, b: (NodeId, NodeId), c: (NodeId, NodeId)) -> bool {
    ||| anc_or_self(src.nodes, b.0, c.0)
    ||| anc_or_self(src.nodes, c.0, b.0)
    ||| anc_or_self(dst.nodes, b.1, c.1)
    ||| anc_or_self(dst.nodes, c.1, b.1)
    ||| (b.0.0 < c.0.0) != (b.1.0 < c.1.0)
}

/// No further anchor can join `blocks`: every candidate pair of equal
/// subtrees is blocked by one of them (a block blocks itself).
pub open spec fn anchors_maximal(src: TreeView, dst: TreeView, blocks: Set<(NodeId, NodeId)>) -> bool {
    forall|c: (NodeId, NodeId)|
        #[trigger] anchor_candidate(src, dst, c) && src.subtree_eq(c.0, dst, c.1) ==> blocked_in(src, dst, blocks, c)
}

/// Some block of `blocks` blocks the candidate `c`.
pub open spec fn blocked_in(src: TreeView, dst: TreeView, blocks: Set<(NodeId, NodeId)>, c: (NodeId, NodeId)) -> bool {
    exists|b: (NodeId, NodeId)| blocks.contains(b) && blocked_by(src, dst, b, c)
}

/// Some block of `blocks` holds the pair `p` inside it on both sides.
spec fn held_by_block(src: TreeView, dst: TreeView, blocks: Set<(NodeId, NodeId)>, p: (NodeId, NodeId)) -> bool {
    exists|b: (NodeId, NodeId)|
        blocks.contains(b) && anc_or_self(src.nodes, b.0, p.0) && anc_or_self(dst.nodes, b.1, p.1)
}

/// A candidate with a matched node lies in or around a block's subtree.
proof fn lemma_matched_blocked(
    src: TreeView,
    dst: TreeView,
    blocks: Set<(NodeId, NodeId)>,
    m: MatchingView,
    c: (NodeId, NodeId),
)
    requires
        src.wf(),
        dst.wf(),
        m.wf(),
        m.fits(src, dst),
        blocks_match(src, dst, blocks, m),
        src.valid(c.0),
        dst.valid(c.1),
        m.fwd[c.0.0 as int] is Some || m.bwd[c.1.0 as int] is Some,
    ensures
        blocked_in(src, dst, blocks, c),
{
    if m.fwd[c.0.0 as int] is Some {
        assert(NodeId(c.0.0 as usize) == c.0);
        let b = choose|b: (NodeId, NodeId)|
            #[trigger] blocks.contains(b) && anc_or_self(src.nodes, b.0, NodeId(c.0.0 as usize));
        assert(blocked_by(src, dst, b, c));
    } else {
        let j = m.bwd[c.1.0 as int].unwrap();
        assert(m.fwd[j.0 as int] == Some(c.1));
        assert(NodeId(j.0 as usize) == j);
        let b = choose|b: (NodeId, NodeId)| #[trigger] blocks.contains(b) && anc_or_self(src.nodes, b.0, NodeId(j.0 as usize));
        assert(m.fwd[j.0 as int] == Some(pos_image(src, dst, b.0, b.1, j)));
        assert(src.subtree_eq(b.0, dst, b.1));
        if j != b.0 {
            crate::embed::lemma_pos_anc(src, dst, b.0, b.1, b.0, j);
        }
        assert(pos_image(src, dst, b.0, b.1, b.0) == b.1);
        assert(blocked_by(src, dst, b, c));
    }
}

/// Placing the anchor `(s, d)` — which replaces the blocks inside it —
/// keeps every candidate seen so far blocked and every placed anchor
/// inside a block.
proof fn lemma_place_step(
    src: TreeView,
    dst: TreeView,
    old_blocks: Set<(NodeId, NodeId)>,
    new_blocks: Set<(NodeId, NodeId)>,
    cands: Seq<(NodeId, NodeId)>,
    c: int,
    placed: Seq<(NodeId, NodeId)>,
    s: NodeId,
    d: NodeId,
)
    requires
        src.wf(),
        dst.wf(),
        src.subtree_eq(s, dst, d),
        forall|b: (NodeId, NodeId)|
            #[trigger] old_blocks.contains(b) ==> anchor_candidate(src, dst, b) && src.subtree_eq(b.0, dst, b.1),
        forall|b: (NodeId, NodeId)|
            #[trigger] new_blocks.contains(b) == (b == (s, d) || (old_blocks.contains(b) && !anc_or_self(
                src.nodes,
                s,
                b.0,
            ) && !anc_or_self(dst.nodes, d, b.1))),
        0 < c <= cands.len(),
        cands[c - 1] == (s, d),
        forall|j: int|
            0 <= j < c - 1 && src.subtree_eq((#[trigger] cands[j]).0, dst, cands[j].1) ==> blocked_in(
                src,
                dst,
                old_blocks,
                cands[j],
            ),
        forall|q: int| 0 <= q < placed.len() ==> held_by_block(src, dst, old_blocks, #[trigger] placed[q]),
    ensures
        forall|j: int|
            0 <= j < c && src.subtree_eq((#[trigger] cands[j]).0, dst, cands[j].1) ==> blocked_in(
                src,
                dst,
                new_blocks,
                cands[j],
            ),
        forall|q: int|
            0 <= q < placed.push((s, d)).len() ==> held_by_block(src, dst, new_blocks, #[trigger] placed.push((s, d))[q]),
{
    assert(new_blocks.contains((s, d)));
    assert forall|j: int|
        0 <= j < c && src.subtree_eq((#[trigger] cands[j]).0, dst, cands[j].1) implies blocked_in(
            src,
            dst,
            new_blocks,
            cands[j],
        ) by {
        if j == c - 1 {
            assert(blocked_by(src, dst, (s, d), cands[j]));
        } else {
            assert(blocked_in(src, dst, old_blocks, cands[j]));
            let b = choose|b: (NodeId, NodeId)| old_blocks.contains(b) && blocked_by(src, dst, b, cands[j]);
            if !new_blocks.contains(b) {
                lemma_unique_nested(src, dst, s, d, b);
                lemma_blocked_transfer(src, dst, b, (s, d), cands[j]);
            }
        }
    }
    let all = placed.push((s, d));
    assert forall|q: int| 0 <= q < all.len() implies held_by_block(src, dst, new_blocks, #[trigger] all[q]) by {
        if q == placed.len() {
            assert(all[q] == (s, d));
        } else {
            assert(all[q] == placed[q]);
            assert(held_by_block(src, dst, old_blocks, placed[q]));
            let b = choose|b: (NodeId, NodeId)|
                old_blocks.contains(b) && anc_or_self(src.nodes, b.0, placed[q].0) && anc_or_self(
                    dst.nodes,
                    b.1,
                    placed[q].1,
                );
            if !new_blocks.contains(b) {
                lemma_unique_nested(src, dst, s, d, b);
                crate::embed::lemma_anc_or_self_trans(src, s, b.0, placed[q].0);
                crate::embed::lemma_anc_or_self_trans(dst, d, b.1, placed[q].1);
            }
        }
    }
}

/// Outside a subtree, a node sits on the same side of the subtree's
/// root as of any node in it.
proof fn lemma_order_transfer(t: TreeView, big: NodeId, small: NodeId, c: NodeId)
    requires
        t.arena_wf(),
        anc_or_self(t.nodes, big, small),
        !anc_or_self(t.nodes, big, c),
        !anc_or_self(t.nodes, c, big),
    ensures
        (big.0 < c.0) == (small.0 < c.0),
{
    if big != small {
        crate::embed::lemma_anc_before(t, big, small);
        if big.0 < c.0 && c.0 < small.0 {
            crate::tree::lemma_subtree_contiguous(t, big, small, c);
        }
        if c.0 == small.0 {
            assert(c == small);
        }
    }
}

/// A block that holds another on both sides blocks whatever the other
/// blocks.
proof fn lemma_blocked_transfer(
    src: TreeView,
    dst: TreeView,
    b: (NodeId, NodeId),
    big: (NodeId, NodeId),
    c: (NodeId, NodeId),
)
    requires
        src.arena_wf(),
        dst.arena_wf(),
        anc_or_self(src.nodes, big.0, b.0),
        anc_or_self(dst.nodes, big.1, b.1),
        blocked_by(src, dst, b, c),
    ensures
        blocked_by(src, dst, big, c),
{
    if !blocked_by(src, dst, big, c) {
        if anc_or_self(src.nodes, b.0, c.0) {
            crate::embed::lemma_anc_or_self_trans(src, big.0, b.0, c.0);
        }
        if anc_or_self(src.nodes, c.0, b.0) {
            crate::embed::lemma_anc_comparable(src, c.0, big.0, b.0);
        }
        if anc_or_self(dst.nodes, b.1, c.1) {
            crate::embed::lemma_anc_or_self_trans(dst, big.1, b.1, c.1);
        }
        if anc_or_self(dst.nodes, c.1, b.1) {
            crate::embed::lemma_anc_comparable(dst, c.1, big.1, b.1);
        }
        lemma_order_transfer(src, big.0, b.0, c.0);
        lemma_order_transfer(dst, big.1, b.1, c.1);
    }
}

/// Hashes unique in both trees pin equal subtrees together: a candidate
/// inside an equal pair of subtrees on one side is inside it on the
/// other side too.
proof fn lemma_unique_nested(src: TreeView, dst: TreeView, s: NodeId, d: NodeId, b: (NodeId, NodeId))
    requires
        src.wf(),
        dst.wf(),
        src.subtree_eq(s, dst, d),
        anchor_candidate(src, dst, b),
        src.subtree_eq(b.0, dst, b.1),
        anc_or_self(src.nodes, s, b.0) || anc_or_self(dst.nodes, d, b.1),
    ensures
        anc_or_self(src.nodes, s, b.0),
        anc_or_self(dst.nodes, d, b.1),
{
    crate::tree::lemma_equal_subtrees_hash_equal(src, b.0, dst, b.1);
    if anc_or_self(dst.nodes, d, b.1) {
        crate::embed::lemma_pos_onto(src, dst, s, d, b.1);
        let n = choose|n: NodeId| anc_or_self(src.nodes, s, n) && #[trigger] pos_image(src, dst, s, d, n) == b.1;
        crate::embed::lemma_pos_equal(src, dst, s, d, n);
        crate::tree::lemma_equal_subtrees_hash_equal(src, n, dst, b.1);
        assert(src.valid(n) && src.hash(n) == src.hash(b.0));
        assert(n == b.0);
    }
    if anc_or_self(src.nodes, s, b.0) {
        let v = pos_image(src, dst, s, d, b.0);
        crate::embed::lemma_pos_equal(src, dst, s, d, b.0);
        crate::tree::lemma_equal_subtrees_hash_equal(src, b.0, dst, v);
        assert(dst.valid(v) && dst.hash(v) == src.hash(b.0));
        assert(v == b.1);
        if b.0 != s {
            crate::embed::lemma_pos_anc(src, dst, s, d, s, b.0);
            assert(pos_image(src, dst, s, d, s) == d);
        }
    }
}

proof fn lemma_contains_push<A>(s: Seq<A>, x: A, y: A)
    requires
        s.contains(y),
    ensures
        s.push(x).contains(y),
{
    let k = choose|k: int| 0 <= k < s.len() && s[k] == y;
    assert(s.push(x)[k] == y);
}

/// `m` is exactly the positional matching of a set of anchor blocks:
/// structurally equal subtree pairs, disjoint from one another on both
/// sides, and in the same document order on both sides.
pub open spec fn blocks_match(src: TreeView, dst: TreeView, blocks: Set<(NodeId, NodeId)>, m: MatchingView) -> bool {
    &&& forall|b: (NodeId, NodeId)| #[trigger] blocks.contains(b) ==> src.subtree_eq(b.0, dst, b.1)
    &&& forall|b1: (NodeId, NodeId), b2: (NodeId, NodeId)|
        #![trigger blocks.contains(b1), blocks.contains(b2)]
        blocks.contains(b1) && blocks.contains(b2) && b1 != b2 ==> !anc_or_self(src.nodes, b1.0, b2.0) && !anc_or_self(
            dst.nodes,
            b1.1,
            b2.1,
        )
    &&& forall|b1: (NodeId, NodeId), b2: (NodeId, NodeId)|
        #![trigger blocks.contains(b1), blocks.contains(b2)]
        blocks.contains(b1) && blocks.contains(b2) ==> (b1.0.0 < b2.0.0) == (b1.1.0 < b2.1.0)
    &&& forall|b: (NodeId, NodeId), n: NodeId|
        #![trigger blocks.contains(b), anc_or_self(src.nodes, b.0, n)]
        blocks.contains(b) && anc_or_self(src.nodes, b.0, n) ==> m.fwd[n.0 as int] == Some(
            pos_image(src, dst, b.0, b.1, n),
        )
    &&& forall|i: int|
        #![trigger m.fwd[i]]
        0 <= i < m.fwd.len() && m.fwd[i] is Some ==> exists|b: (NodeId, NodeId)|
            #[trigger] blocks.contains(b) && anc_or_self(src.nodes, b.0, NodeId(i as usize))
}

/// A matching made of anchor blocks is valid: positional pairing inside a
/// block keeps kinds, ancestry, and sibling order, and disjoint blocks in
/// one document order on both sides keep them across blocks.
proof fn lemma_blocks_valid(src: TreeView, dst: TreeView, blocks: Set<(NodeId, NodeId)>, m: MatchingView)
    requires
        src.wf(),
        dst.wf(),
        m.wf(),
        m.fits(src, dst),
        blocks_match(src, dst, blocks, m),
    ensures
        m.valid(src, dst),
{
    assert forall|i: int|
        #![trigger m.fwd[i]]
        0 <= i < m.fwd.len() && m.fwd[i] is Some implies src.kind_id(NodeId(i as usize)) == dst.kind_id(
            m.fwd[i].unwrap(),
        ) by {
        let n = NodeId(i as usize);
        let b = choose|b: (NodeId, NodeId)| #[trigger] blocks.contains(b) && anc_or_self(src.nodes, b.0, n);
        crate::embed::lemma_pos_equal(src, dst, b.0, b.1, n);
    }
    assert forall|s: NodeId, a: NodeId|
        #![trigger src.is_anc(a, s), m.fwd[s.0 as int], m.fwd[a.0 as int]]
        s.0 < m.fwd.len() && a.0 < m.fwd.len() && m.fwd[s.0 as int] is Some && m.fwd[a.0 as int] is Some
            && src.is_anc(a, s) implies dst.is_anc(m.fwd[a.0 as int].unwrap(), m.fwd[s.0 as int].unwrap()) by {
        assert(m.fwd[s.0 as int] is Some);
        assert(m.fwd[a.0 as int] is Some);
        let bs = choose|b: (NodeId, NodeId)| #[trigger] blocks.contains(b) && anc_or_self(src.nodes, b.0, s);
        let ba = choose|b: (NodeId, NodeId)| #[trigger] blocks.contains(b) && anc_or_self(src.nodes, b.0, a);
        assert(anc_in(src.nodes, a, s));
        crate::embed::lemma_anc_or_self_trans(src, ba.0, a, s);
        if ba != bs {
            crate::embed::lemma_anc_comparable(src, ba.0, bs.0, s);
        }
        crate::embed::lemma_pos_anc(src, dst, ba.0, ba.1, a, s);
    }
    assert forall|p: NodeId, k1: int, k2: int|
        #![trigger src.children(p)[k1], src.children(p)[k2]]
        src.valid(p) && 0 <= k1 < k2 < src.children(p).len() && m.image(src.children(p)[k1]) is Some && m.image(
            src.children(p)[k2],
        ) is Some implies m.image(src.children(p)[k1]).unwrap().0 < m.image(src.children(p)[k2]).unwrap().0 by {
        let c1 = src.children(p)[k1];
        let c2 = src.children(p)[k2];
        crate::embed::lemma_child_parent(src, p, k1);
        crate::embed::lemma_child_parent(src, p, k2);
        assert(src.nodes[p.0 as int].children[k1].0 < src.nodes[p.0 as int].children[k2].0);
        assert(m.fwd[c1.0 as int] is Some);
        assert(m.fwd[c2.0 as int] is Some);
        let b1 = choose|b: (NodeId, NodeId)| #[trigger] blocks.contains(b) && anc_or_self(src.nodes, b.0, c1);
        let b2 = choose|b: (NodeId, NodeId)| #[trigger] blocks.contains(b) && anc_or_self(src.nodes, b.0, c2);
        if b1 == b2 {
            let x = b1.0;
            let y = b1.1;
            if c1 == x {
                crate::embed::lemma_anc_before(src, p, c2);
                crate::embed::lemma_anc_or_self_trans(src, x, p, c2);
                assert(anc_in(src.nodes, x, c2));
                assert(anc_or_self(src.nodes, x, p));
                if x != p {
                    crate::embed::lemma_anc_before(src, x, p);
                }
                assert(false);
            }
            if c2 == x {
                crate::embed::lemma_anc_before(src, p, c1);
                assert(anc_in(src.nodes, x, c1));
                assert(anc_or_self(src.nodes, x, p));
                if x != p {
                    crate::embed::lemma_anc_before(src, x, p);
                }
                assert(false);
            }
            crate::embed::lemma_pos_equal(src, dst, x, y, c1);
            crate::embed::lemma_pos_equal(src, dst, x, y, c2);
            let q = pos_image(src, dst, x, y, p);
            crate::embed::lemma_pos_equal(src, dst, x, y, p);
            assert(dst.nodes[q.0 as int].children[k1].0 < dst.nodes[q.0 as int].children[k2].0);
        } else {
            if c1 != b1.0 {
                assert(anc_or_self(src.nodes, b1.0, p));
                crate::embed::lemma_anc_or_self_trans(src, b1.0, p, c2);
                crate::embed::lemma_anc_comparable(src, b1.0, b2.0, c2);
                assert(false);
            }
            if c2 != b2.0 {
                assert(anc_or_self(src.nodes, b2.0, p));
                crate::embed::lemma_anc_or_self_trans(src, b2.0, p, c1);
                crate::embed::lemma_anc_comparable(src, b1.0, b2.0, c1);
                assert(false);
            }
            assert(pos_image(src, dst, b1.0, b1.1, c1) == b1.1);
            assert(pos_image(src, dst, b2.0, b2.1, c2) == b2.1);
        }
    }
}

/// Placing a new anchor block over unmatched roots: the blocks it covers
/// give way, and the rest stay.
proof fn lemma_blocks_step(
    src: TreeView,
    dst: TreeView,
    blocks: Set<(NodeId, NodeId)>,
    before: MatchingView,
    after: MatchingView,
    s: NodeId,
    d: NodeId,
)
    requires
        src.wf(),
        dst.wf(),
        before.wf(),
        before.fits(src, dst),
        after.wf(),
        after.fits(src, dst),
        blocks_match(src, dst, blocks, before),
        src.subtree_eq(s, dst, d),
        before.fwd[s.0 as int] is None,
        before.bwd[d.0 as int] is None,
        forall|b: (NodeId, NodeId)| #[trigger] blocks.contains(b) ==> (b.0.0 < s.0) == (b.1.0 < d.0),
        forall|i: int|
            #![trigger after.fwd[i]]
            0 <= i < src.len() ==> after.fwd[i] == overlay_image(src, dst, s, d, before, i),
    ensures
        blocks_match(
            src,
            dst,
            blocks.filter(|b: (NodeId, NodeId)| !anc_or_self(src.nodes, s, b.0) && !anc_or_self(dst.nodes, d, b.1)).insert(
                (s, d),
            ),
            after,
        ),
{
    let kept = blocks.filter(|b: (NodeId, NodeId)| !anc_or_self(src.nodes, s, b.0) && !anc_or_self(dst.nodes, d, b.1));
    let next = kept.insert((s, d));
    // No kept block contains s or d.
    assert forall|b: (NodeId, NodeId)| #[trigger] kept.contains(b) implies !anc_or_self(src.nodes, b.0, s)
        && !anc_or_self(dst.nodes, b.1, d) by {
        assert(blocks.contains(b));
        if anc_or_self(src.nodes, b.0, s) {
            assert(before.fwd[s.0 as int] == Some(pos_image(src, dst, b.0, b.1, s)));
        }
        if anc_or_self(dst.nodes, b.1, d) {
            crate::embed::lemma_pos_onto(src, dst, b.0, b.1, d);
            let u = choose|u: NodeId| anc_or_self(src.nodes, b.0, u) && #[trigger] pos_image(src, dst, b.0, b.1, u) == d;
            assert(before.fwd[u.0 as int] == Some(d));
            assert(u.0 < before.fwd.len()) by {
                if u != b.0 {
                    crate::embed::lemma_anc_before(src, b.0, u);
                }
            }
            assert(before.bwd[d.0 as int] == Some(u));
        }
    }
    assert forall|b: (NodeId, NodeId)| #[trigger] next.contains(b) implies src.subtree_eq(b.0, dst, b.1) by {
        if b != (s, d) {
            assert(blocks.contains(b));
        }
    }
    assert forall|b1: (NodeId, NodeId), b2: (NodeId, NodeId)|
        #![trigger next.contains(b1), next.contains(b2)]
        next.contains(b1) && next.contains(b2) && b1 != b2 implies !anc_or_self(src.nodes, b1.0, b2.0) && !anc_or_self(
            dst.nodes,
            b1.1,
            b2.1,
        ) by {
        if b1 != (s, d) && b2 != (s, d) {
            assert(blocks.contains(b1) && blocks.contains(b2));
        } else if b1 == (s, d) {
            assert(kept.contains(b2));
        } else {
            assert(kept.contains(b1));
        }
    }
    assert forall|b1: (NodeId, NodeId), b2: (NodeId, NodeId)|
        #![trigger next.contains(b1), next.contains(b2)]
        next.contains(b1) && next.contains(b2) implies (b1.0.0 < b2.0.0) == (b1.1.0 < b2.1.0) by {
        if b1 != (s, d) && b2 != (s, d) {
            assert(blocks.contains(b1) && blocks.contains(b2));
        } else if b1 == (s, d) && b2 != (s, d) {
            assert(blocks.contains(b2));
            if b2.0 == s {
                assert(anc_or_self(src.nodes, b2.0, s));
            }
            if b2.1 == d {
                assert(anc_or_self(dst.nodes, b2.1, d));
            }
        } else if b2 == (s, d) && b1 != (s, d) {
            assert(blocks.contains(b1));
            if b1.0 == s {
                assert(anc_or_self(src.nodes, b1.0, s));
            }
            if b1.1 == d {
                assert(anc_or_self(dst.nodes, b1.1, d));
            }
        }
    }
    assert forall|b: (NodeId, NodeId), n: NodeId|
        #![trigger next.contains(b), anc_or_self(src.nodes, b.0, n)]
        next.contains(b) && anc_or_self(src.nodes, b.0, n) implies after.fwd[n.0 as int] == Some(
            pos_image(src, dst, b.0, b.1, n),
        ) by {
        assert(n.0 < src.len()) by {
            if n != b.0 {
                crate::embed::lemma_anc_before(src, b.0, n);
            }
            if b == (s, d) {
                assert(src.subtree_eq(s, dst, d));
            } else {
                assert(blocks.contains(b));
            }
        }
        if b != (s, d) {
            assert(kept.contains(b));
            assert(blocks.contains(b));
            if anc_or_self(src.nodes, s, n) {
                crate::embed::lemma_anc_comparable(src, s, b.0, n);
            }
            let v = pos_image(src, dst, b.0, b.1, n);
            assert(before.fwd[n.0 as int] == Some(v));
            if anc_or_self(dst.nodes, d, v) {
                crate::embed::lemma_pos_anc(src, dst, b.0, b.1, b.0, n);
                if n == b.0 {
                    assert(v == b.1);
                }
                crate::embed::lemma_anc_comparable(dst, d, b.1, v);
            }
            assert(after.fwd[n.0 as int] == overlay_image(src, dst, s, d, before, n.0 as int));
        } else {
            assert(after.fwd[n.0 as int] == overlay_image(src, dst, s, d, before, n.0 as int));
        }
    }
    assert forall|i: int|
        #![trigger after.fwd[i]]
        0 <= i < after.fwd.len() && after.fwd[i] is Some implies exists|b: (NodeId, NodeId)|
            #[trigger] next.contains(b) && anc_or_self(src.nodes, b.0, NodeId(i as usize)) by {
        let n = NodeId(i as usize);
        assert(after.fwd[i] == overlay_image(src, dst, s, d, before, i));
        if anc_or_self(src.nodes, s, n) {
            assert(next.contains((s, d)));
        } else {
            let v = before.fwd[i].unwrap();
            assert(!anc_or_self(dst.nodes, d, v));
            let b = choose|b: (NodeId, NodeId)| #[trigger] blocks.contains(b) && anc_or_self(src.nodes, b.0, n);
            if anc_or_self(src.nodes, s, b.0) {
                crate::embed::lemma_anc_or_self_trans(src, s, b.0, n);
            }
            if anc_or_self(dst.nodes, d, b.1) {
                assert(v == pos_image(src, dst, b.0, b.1, n));
                if n != b.0 {
                    crate::embed::lemma_pos_anc(src, dst, b.0, b.1, b.0, n);
                }
                crate::embed::lemma_anc_or_self_trans(dst, d, b.1, v);
            }
            assert(kept.contains(b));
            assert(next.contains(b));
        }
    }
}

/// Diff phase 1: anchor subtrees whose hash occurs exactly once in each
/// tree, largest first.
///
/// Every anchored subtree matches wholesale (all descendants pairwise).
/// A candidate that would cross an already-placed anchor in document
/// order is demoted — skipped, never an invariant violation. Processing
/// largest-first means a candidate inside a placed anchor is already
/// matched, so surviving anchor roots always head disjoint subtrees.
pub fn anchor(src: &Tree, dst: &Tree) -> (m: Matching)
    ensures
        m@.wf(),
        m@.fits(src@, dst@),
        pairs_identical(m@, src@, dst@),
        m@.valid(src@, dst@),
        exists|blocks: Set<(NodeId, NodeId)>|
            blocks_match(src@, dst@, blocks, m@) && (forall|b: (NodeId, NodeId)|
                #[trigger] blocks.contains(b) ==> anchor_candidate(src@, dst@, b)) && anchors_maximal(
                src@,
                dst@,
                blocks,
            ),
{
    broadcast use vstd::std_specs::hash::group_hash_axioms;

    proof {
        use_type_invariant(src);
        use_type_invariant(dst);
    }
    let mut m = Matching::new(src, dst);
    let src_sizes = subtree_sizes(src);
    let src_unique = unique_subtrees(src);
    let dst_unique = unique_subtrees(dst);

    // Candidates: src nodes unique by hash whose hash is unique in dst
    // too, in src order.
    let mut found: Vec<(NodeId, NodeId)> = Vec::new();
    let n = src.node_count();
    let mut i: usize = 0;
    while i < n
        invariant
            n == src@.len(),
            i <= n,
            forall|k: int|
                0 <= k < found@.len() ==> src@.valid((#[trigger] found@[k]).0) && dst@.valid(found@[k].1),
            forall|k: int| 0 <= k < found@.len() ==> anchor_candidate(src@, dst@, #[trigger] found@[k]),
            forall|h: u64, x: NodeId|
                #![trigger dst_unique@[h], unique_node(dst@, h, x)]
                dst_unique@.contains_key(h) ==> (dst_unique@[h] == Some(x) <==> unique_node(dst@, h, x)),
            forall|h: u64, x: NodeId|
                #![trigger src_unique@[h], unique_node(src@, h, x)]
                src_unique@.contains_key(h) ==> (src_unique@[h] == Some(x) <==> unique_node(src@, h, x)),
            forall|h: u64|
                #![trigger src_unique@.contains_key(h)]
                src_unique@.contains_key(h) <==> exists|x: NodeId| src@.valid(x) && #[trigger] src@.hash(x) == h,
            forall|h: u64|
                #![trigger dst_unique@.contains_key(h)]
                dst_unique@.contains_key(h) <==> exists|x: NodeId| dst@.valid(x) && #[trigger] dst@.hash(x) == h,
            forall|c: (NodeId, NodeId)| #[trigger] anchor_candidate(src@, dst@, c) && c.0.0 < i ==> found@.contains(c),
        decreases n - i,
    {
        let s = NodeId(i);
        let h = src.hash(s);
        let ghost found0 = found@;
        if let Some(entry) = src_unique.get(&h) {
            if *entry == Some(s) {
                if let Some(other) = dst_unique.get(&h) {
                    if let Some(d) = *other {
                        proof {
                            assert(unique_node(dst@, h, d));
                            assert(unique_node(src@, h, s));
                            assert(anchor_candidate(src@, dst@, (s, d)));
                        }
                        found.push((s, d));
                    }
                }
            }
        }
        proof {
            assert forall|c: (NodeId, NodeId)| #[trigger] anchor_candidate(src@, dst@, c) && c.0.0 < i + 1 implies found@.contains(
                c,
            ) by {
                if c.0.0 < i {
                    assert(found0.contains(c));
                    if found@.len() > found0.len() {
                        assert(found@ == found0.push(found@.last()));
                        lemma_contains_push(found0, found@.last(), c);
                    }
                } else {
                    assert(c.0 == s);
                    assert(src@.valid(s) && src@.hash(s) == h);
                    assert(src_unique@.contains_key(h));
                    assert(unique_node(src@, h, s));
                    assert(src_unique@[h] == Some(s));
                    assert(dst@.valid(c.1) && dst@.hash(c.1) == h);
                    assert(dst_unique@.contains_key(h));
                    assert(unique_node(dst@, h, c.1));
                    assert(dst_unique@[h] == Some(c.1));
                    assert(found@.last() == c);
                    assert(found@[found@.len() - 1] == c);
                }
            }
        }
        i = i + 1;
    }
    // Largest first; ties keep src order.
    let mut max_size: usize = 0;
    let mut k: usize = 0;
    while k < found.len()
        invariant
            k <= found@.len(),
            forall|j: int| 0 <= j < k ==> cand_size(src_sizes@, (#[trigger] found@[j]).0) <= max_size,
        decreases found@.len() - k,
    {
        let (s, _) = found[k];
        let size = if s.0 < src_sizes.len() {
            src_sizes[s.0]
        } else {
            0
        };
        if size > max_size {
            max_size = size;
        }
        k = k + 1;
    }
    let mut candidates: Vec<(NodeId, NodeId)> = Vec::new();
    let mut size = max_size;
    loop
        invariant
            forall|k: int|
                0 <= k < found@.len() ==> src@.valid((#[trigger] found@[k]).0) && dst@.valid(found@[k].1),
            forall|k: int|
                0 <= k < candidates@.len() ==> src@.valid((#[trigger] candidates@[k]).0) && dst@.valid(
                    candidates@[k].1,
                ),
            forall|k: int| 0 <= k < found@.len() ==> anchor_candidate(src@, dst@, #[trigger] found@[k]),
            forall|k: int| 0 <= k < candidates@.len() ==> anchor_candidate(src@, dst@, #[trigger] candidates@[k]),
            size <= max_size,
            forall|j: int| 0 <= j < found@.len() ==> cand_size(src_sizes@, (#[trigger] found@[j]).0) <= max_size,
            forall|j: int|
                0 <= j < found@.len() && cand_size(src_sizes@, (#[trigger] found@[j]).0) > size
                    ==> candidates@.contains(found@[j]),
        ensures
            forall|j: int| 0 <= j < found@.len() ==> candidates@.contains(#[trigger] found@[j]),
        decreases size,
    {
        let mut k: usize = 0;
        while k < found.len()
            invariant
                forall|k: int|
                    0 <= k < found@.len() ==> src@.valid((#[trigger] found@[k]).0) && dst@.valid(found@[k].1),
                forall|k: int|
                    0 <= k < candidates@.len() ==> src@.valid((#[trigger] candidates@[k]).0) && dst@.valid(
                        candidates@[k].1,
                    ),
                forall|k: int| 0 <= k < found@.len() ==> anchor_candidate(src@, dst@, #[trigger] found@[k]),
                forall|k: int| 0 <= k < candidates@.len() ==> anchor_candidate(src@, dst@, #[trigger] candidates@[k]),
                k <= found@.len(),
                forall|j: int|
                    0 <= j < found@.len() && (cand_size(src_sizes@, (#[trigger] found@[j]).0) > size || (j < k
                        && cand_size(src_sizes@, found@[j].0) == size)) ==> candidates@.contains(found@[j]),
            decreases found@.len() - k,
        {
            let (s, d) = found[k];
            let s_size = if s.0 < src_sizes.len() {
                src_sizes[s.0]
            } else {
                0
            };
            let ghost cands0 = candidates@;
            if s_size == size {
                candidates.push((s, d));
            }
            proof {
                assert forall|j: int|
                    0 <= j < found@.len() && (cand_size(src_sizes@, (#[trigger] found@[j]).0) > size || (j < k + 1
                        && cand_size(src_sizes@, found@[j].0) == size)) implies candidates@.contains(found@[j]) by {
                    assert(found@[k as int] == (s, d));
                    assert(s_size == cand_size(src_sizes@, s));
                    if j == k && cand_size(src_sizes@, found@[j].0) == size {
                        assert(candidates@[candidates@.len() - 1] == found@[j]);
                    } else if candidates@.len() > cands0.len() {
                        assert(candidates@ == cands0.push((s, d)));
                        lemma_contains_push(cands0, (s, d), found@[j]);
                    }
                }
            }
            k = k + 1;
        }
        if size == 0 {
            break;
        }
        size = size - 1;
    }

    let mut placed: Vec<(NodeId, NodeId)> = Vec::new();
    let ghost mut blocks: Set<(NodeId, NodeId)> = Set::empty();
    proof {
        assert forall|i: int| #![trigger m@.fwd[i]] 0 <= i < m@.fwd.len() implies m@.fwd[i] is None by {}
    }
    let mut c: usize = 0;
    while c < candidates.len()
        invariant
            forall|k: int|
                0 <= k < candidates@.len() ==> src@.valid((#[trigger] candidates@[k]).0) && dst@.valid(
                    candidates@[k].1,
                ),
            src@.wf(),
            dst@.wf(),
            m@.wf(),
            m@.fits(src@, dst@),
            pairs_identical(m@, src@, dst@),
            blocks_match(src@, dst@, blocks, m@),
            forall|b: (NodeId, NodeId)|
                #[trigger] blocks.contains(b) ==> exists|q: int| 0 <= q < placed@.len() && placed@[q] == b,
            forall|k: int| 0 <= k < candidates@.len() ==> anchor_candidate(src@, dst@, #[trigger] candidates@[k]),
            forall|b: (NodeId, NodeId)| #[trigger] blocks.contains(b) ==> anchor_candidate(src@, dst@, b),
            c <= candidates@.len(),
            forall|j: int|
                0 <= j < c && src@.subtree_eq((#[trigger] candidates@[j]).0, dst@, candidates@[j].1) ==> blocked_in(
                    src@,
                    dst@,
                    blocks,
                    candidates@[j],
                ),
            forall|q: int| 0 <= q < placed@.len() ==> held_by_block(src@, dst@, blocks, #[trigger] placed@[q]),
        decreases candidates@.len() - c,
    {
        let (s, d) = candidates[c];
        c = c + 1;
        proof {
            assert(candidates@[c - 1] == (s, d));
        }
        // Already inside a larger anchor's subtree on either side.
        if m.image(s).is_some() || m.preimage(d).is_some() {
            proof {
                lemma_matched_blocked(src@, dst@, blocks, m@, (s, d));
            }
            continue;
        }
        // Demote candidates that cross a placed anchor: disjoint
        // subtrees must keep the same document order on both sides.
        let mut crosses = false;
        let mut p: usize = 0;
        while p < placed.len()
            invariant
                p <= placed@.len(),
                crosses == exists|q: int| 0 <= q < p && (placed@[q].0.0 < s.0) != (placed@[q].1.0 < d.0),
            decreases placed@.len() - p,
        {
            let (x, y) = placed[p];
            if (x.0 < s.0) != (y.0 < d.0) {
                crosses = true;
            }
            p = p + 1;
        }
        if crosses {
            proof {
                let q = choose|q: int| 0 <= q < p && (placed@[q].0.0 < s.0) != (placed@[q].1.0 < d.0);
                let pq = placed@[q];
                assert(held_by_block(src@, dst@, blocks, pq));
                let b = choose|b: (NodeId, NodeId)|
                    blocks.contains(b) && anc_or_self(src@.nodes, b.0, pq.0) && anc_or_self(dst@.nodes, b.1, pq.1);
                assert(blocked_by(src@, dst@, pq, (s, d)));
                lemma_blocked_transfer(src@, dst@, pq, b, (s, d));
            }
            continue;
        }
        // Equal hashes virtually always mean equal structure, but a
        // 64-bit collision would corrupt the matching; verify before
        // committing the subtree.
        if !structural_eq(src, s, dst, d) {
            continue;
        }
        let ghost m_before = m@;
        let ghost mut ghost_blocks_before = blocks;
        match_subtree(&mut m, src, s, dst, d);
        proof {
            assert forall|b: (NodeId, NodeId)| #[trigger] blocks.contains(b) implies (b.0.0 < s.0) == (b.1.0 < d.0) by {
                let q = choose|q: int| 0 <= q < placed@.len() && placed@[q] == b;
                assert((placed@[q].0.0 < s.0) == (placed@[q].1.0 < d.0));
            }
            assert(m_before.fwd[s.0 as int] is None);
            assert(m_before.bwd[d.0 as int] is None);
            lemma_blocks_step(src@, dst@, blocks, m_before, m@, s, d);
            let ghost old_blocks = blocks;
            blocks = blocks.filter(
                |b: (NodeId, NodeId)| !anc_or_self(src@.nodes, s, b.0) && !anc_or_self(dst@.nodes, d, b.1),
            ).insert((s, d));
            assert forall|b: (NodeId, NodeId)|
                #[trigger] blocks.contains(b) == (b == (s, d) || (old_blocks.contains(b) && !anc_or_self(
                    src@.nodes,
                    s,
                    b.0,
                ) && !anc_or_self(dst@.nodes, d, b.1))) by {}
            assert(anchor_candidate(src@, dst@, candidates@[c - 1]));
            ghost_blocks_before = old_blocks;
            assert forall|b: (NodeId, NodeId)| #[trigger] blocks.contains(b) implies anchor_candidate(src@, dst@, b) by {
                if b != (s, d) {
                    assert(old_blocks.contains(b));
                }
            }
            assert forall|i: int|
                #![trigger m@.fwd[i]]
                0 <= i < m@.fwd.len() && m@.fwd[i] is Some implies src@.subtree_eq(
                    NodeId(i as usize),
                    dst@,
                    m@.fwd[i].unwrap(),
                ) by {
                if m@.fwd[i] == m_before.fwd[i] {
                    assert(m_before.fwd[i] is Some);
                }
            }
        }
        let ghost placed_before = placed@;
        placed.push((s, d));
        proof {
            assert forall|b: (NodeId, NodeId)|
                #[trigger] blocks.contains(b) implies exists|q: int| 0 <= q < placed@.len() && placed@[q] == b by {
                if b == (s, d) {
                    assert(placed@[placed@.len() - 1] == b);
                } else {
                    let q = choose|q: int| 0 <= q < placed_before.len() && placed_before[q] == b;
                    assert(placed@[q] == b);
                }
            }
            lemma_place_step(src@, dst@, ghost_blocks_before, blocks, candidates@, c as int, placed_before, s, d);
        }
    }
    proof {
        assert forall|x: (NodeId, NodeId)| #[trigger] anchor_candidate(src@, dst@, x) && src@.subtree_eq(x.0, dst@, x.1)
            implies blocked_in(src@, dst@, blocks, x) by {
            assert(found@.contains(x));
            let k = choose|k: int| 0 <= k < found@.len() && found@[k] == x;
            assert(candidates@.contains(found@[k]));
            let j = choose|j: int| 0 <= j < candidates@.len() && candidates@[j] == x;
            assert(src@.subtree_eq(candidates@[j].0, dst@, candidates@[j].1));
        }
        assert(anchors_maximal(src@, dst@, blocks));
    }
    proof {
        lemma_blocks_valid(src@, dst@, blocks, m@);
    }
    m
}

/// Node ids strictly increasing.
pub open spec fn increasing(xs: Seq<NodeId>) -> bool {
    forall|k1: int, k2: int| 0 <= k1 < k2 < xs.len() ==> (#[trigger] xs[k1]).0 < (#[trigger] xs[k2]).0
}

/// The nodes of `ys` without a preimage under `m`, in order.
pub open spec fn unmatched_in(m: MatchingView, ys: Seq<NodeId>) -> Seq<NodeId>
    decreases ys.len(),
{
    if ys.len() == 0 {
        seq![]
    } else {
        let rest = unmatched_in(m, ys.drop_last());
        if m.preimage(ys.last()) is None {
            rest.push(ys.last())
        } else {
            rest
        }
    }
}

/// The unmatched dst nodes of `ys[lo..hi]`, in order.
fn unmatched_ys(m: &Matching, ys: &[NodeId], lo: usize, hi: usize) -> (r: Vec<NodeId>)
    requires
        lo <= hi <= ys@.len(),
        forall|k: int| 0 <= k < ys@.len() ==> (#[trigger] ys@[k]).0 < m@.bwd.len(),
    ensures
        r@ == unmatched_in(m@, ys@.subrange(lo as int, hi as int)),
        forall|k: int|
            0 <= k < r@.len() ==> m@.preimage(#[trigger] r@[k]) is None && exists|t: int|
                lo <= t < hi && ys@[t] == r@[k],
        increasing(ys@) ==> increasing(r@),
        increasing(ys@) && hi > 0 ==> forall|k: int| 0 <= k < r@.len() ==> (#[trigger] r@[k]).0 <= ys@[hi - 1].0,
        increasing(ys@) && lo < ys@.len() ==> forall|k: int| 0 <= k < r@.len() ==> ys@[lo as int].0 <= (#[trigger] r@[k]).0,
{
    let mut r: Vec<NodeId> = Vec::new();
    let mut t = lo;
    proof {
        assert(ys@.subrange(lo as int, lo as int) =~= Seq::<NodeId>::empty());
        assert(r@ =~= Seq::<NodeId>::empty());
    }
    while t < hi
        invariant
            lo <= t <= hi <= ys@.len(),
            forall|k: int| 0 <= k < ys@.len() ==> (#[trigger] ys@[k]).0 < m@.bwd.len(),
            r@ == unmatched_in(m@, ys@.subrange(lo as int, t as int)),
            forall|k: int|
                0 <= k < r@.len() ==> m@.preimage(#[trigger] r@[k]) is None && exists|u: int|
                    lo <= u < t && ys@[u] == r@[k],
            increasing(ys@) ==> increasing(r@),
            increasing(ys@) ==> forall|k: int| 0 <= k < r@.len() && t < ys@.len() ==> (#[trigger] r@[k]).0 < ys@[t as int].0,
            increasing(ys@) && lo < ys@.len() ==> forall|k: int| 0 <= k < r@.len() ==> ys@[lo as int].0 <= (#[trigger] r@[k]).0,
        decreases hi - t,
    {
        let y = ys[t];
        proof {
            let s1 = ys@.subrange(lo as int, t + 1);
            assert(s1.drop_last() =~= ys@.subrange(lo as int, t as int));
            assert(s1.last() == y);
        }
        if m.preimage(y).is_none() {
            r.push(y);
        }
        t = t + 1;
        proof {
            if increasing(ys@) {
                assert forall|k: int| 0 <= k < r@.len() && t < ys@.len() implies (#[trigger] r@[k]).0 < ys@[t as int].0 by {
                    let u = choose|u: int| lo <= u < t && ys@[u] == r@[k];
                    assert(ys@[u].0 < ys@[t as int].0);
                }
                assert forall|k: int| 0 <= k < r@.len() && lo < ys@.len() implies ys@[lo as int].0 <= (#[trigger] r@[k]).0 by {
                    let u = choose|u: int| lo <= u < t && ys@[u] == r@[k];
                    if u > lo {
                        assert(ys@[lo as int].0 < ys@[u].0);
                    }
                }
            }
        }
    }
    proof {
        if increasing(ys@) && hi > 0 {
            assert forall|k: int| 0 <= k < r@.len() implies (#[trigger] r@[k]).0 <= ys@[hi - 1].0 by {
                let u = choose|u: int| lo <= u < hi && ys@[u] == r@[k];
                if u < hi - 1 {
                    assert(ys@[u].0 < ys@[hi - 1].0);
                }
            }
        }
    }
    r
}

/// Splits two child sequences into alignable gaps between fixed points —
/// `xs` children whose image lies in `ys`. Children matched elsewhere
/// (into another part of the tree) are excluded from alignment entirely.
fn gaps(m: &Matching, xs: &[NodeId], ys: &[NodeId]) -> (out: Vec<(Vec<NodeId>, Vec<NodeId>)>)
    requires
        m@.wf(),
        forall|k: int| 0 <= k < xs@.len() ==> (#[trigger] xs@[k]).0 < m@.fwd.len(),
        forall|k: int| 0 <= k < ys@.len() ==> (#[trigger] ys@[k]).0 < m@.bwd.len(),
        increasing(xs@),
        increasing(ys@),
    ensures
        out@.len() >= 1,
        forall|g: int, k: int|
            #![trigger out@[g].0@[k]]
            0 <= g < out@.len() && 0 <= k < out@[g].0@.len() ==> m@.image(out@[g].0@[k]) is None
                && xs@.contains(out@[g].0@[k]),
        forall|g: int, k: int|
            #![trigger out@[g].1@[k]]
            0 <= g < out@.len() && 0 <= k < out@[g].1@.len() ==> m@.preimage(out@[g].1@[k]) is None
                && ys@.contains(out@[g].1@[k]),
        forall|g: int| 0 <= g < out@.len() ==> increasing((#[trigger] out@[g]).0@) && increasing(out@[g].1@),
        forall|g1: int, g2: int, k1: int, k2: int|
            0 <= g1 < g2 < out@.len() && 0 <= k1 < out@[g1].0@.len() && 0 <= k2 < out@[g2].0@.len()
                ==> (#[trigger] out@[g1].0@[k1]).0 < (#[trigger] out@[g2].0@[k2]).0,
{
    broadcast use vstd::std_specs::hash::group_hash_axioms;

    let mut ypos: HashMap<usize, usize> = HashMap::new();
    let mut t: usize = 0;
    while t < ys.len()
        invariant
            t <= ys@.len(),
            forall|key: usize|
                #![trigger ypos@.contains_key(key)]
                ypos@.contains_key(key) ==> ypos@[key] < t && ys@[ypos@[key] as int].0 == key,
            forall|u: int| 0 <= u < t ==> #[trigger] ypos@.contains_key(ys@[u].0),
        decreases ys@.len() - t,
    {
        ypos.insert(ys[t].0, t);
        t = t + 1;
    }

    let mut out: Vec<(Vec<NodeId>, Vec<NodeId>)> = Vec::new();
    let mut gap_x: Vec<NodeId> = Vec::new();
    let mut y_start: usize = 0;
    let mut i: usize = 0;
    while i < xs.len()
        invariant
            m@.wf(),
            forall|k: int| 0 <= k < xs@.len() ==> (#[trigger] xs@[k]).0 < m@.fwd.len(),
            forall|k: int| 0 <= k < ys@.len() ==> (#[trigger] ys@[k]).0 < m@.bwd.len(),
            increasing(xs@),
            increasing(ys@),
            forall|key: usize|
                #![trigger ypos@.contains_key(key)]
                ypos@.contains_key(key) ==> ypos@[key] < ys@.len() && ys@[ypos@[key] as int].0 == key,
            i <= xs@.len(),
            y_start <= ys@.len(),
            forall|k: int|
                0 <= k < gap_x@.len() ==> m@.image(#[trigger] gap_x@[k]) is None && exists|u: int|
                    0 <= u < i && xs@[u] == gap_x@[k],
            increasing(gap_x@),
            forall|g: int, k: int|
                0 <= g < out@.len() && 0 <= k < out@[g].0@.len() ==> m@.image(#[trigger] out@[g].0@[k]) is None
                    && exists|u: int| 0 <= u < i && xs@[u] == out@[g].0@[k],
            forall|g: int, k: int|
                0 <= g < out@.len() && 0 <= k < out@[g].1@.len() ==> m@.preimage(#[trigger] out@[g].1@[k]) is None
                    && ys@.contains(out@[g].1@[k]),
            forall|g: int| 0 <= g < out@.len() ==> increasing((#[trigger] out@[g]).0@) && increasing(out@[g].1@),
            forall|g1: int, g2: int, k1: int, k2: int|
                0 <= g1 < g2 < out@.len() && 0 <= k1 < out@[g1].0@.len() && 0 <= k2 < out@[g2].0@.len()
                    ==> (#[trigger] out@[g1].0@[k1]).0 < (#[trigger] out@[g2].0@[k2]).0,
            forall|g: int, k1: int, k2: int|
                0 <= g < out@.len() && 0 <= k1 < out@[g].0@.len() && 0 <= k2 < gap_x@.len()
                    ==> (#[trigger] out@[g].0@[k1]).0 < (#[trigger] gap_x@[k2]).0,
        decreases xs@.len() - i,
    {
        let xi = xs[i];
        proof {
            assert forall|g: int, k: int|
                0 <= g < out@.len() && 0 <= k < out@[g].0@.len() implies (#[trigger] out@[g].0@[k]).0 < xi.0 by {
                let u = choose|u: int| 0 <= u < i && xs@[u] == out@[g].0@[k];
                assert(xs@[u].0 < xs@[i as int].0);
            }
            assert forall|k: int| 0 <= k < gap_x@.len() implies (#[trigger] gap_x@[k]).0 < xi.0 by {
                let u = choose|u: int| 0 <= u < i && xs@[u] == gap_x@[k];
                assert(xs@[u].0 < xs@[i as int].0);
            }
        }
        match m.image(xi) {
            Some(image) => {
                if let Some(pos) = ypos.get(&image.0) {
                    let pos = *pos;
                    proof {
                        assert(ypos@.contains_key(image.0) && ypos@[image.0] == pos);
                        assert(pos < ys.len());
                    }
                    let hi = if pos > y_start {
                        pos
                    } else {
                        y_start
                    };
                    let ys_part = unmatched_ys(m, ys, y_start, hi);
                    let done = gap_x;
                    gap_x = Vec::new();
                    let ghost old_out = out@;
                    out.push((done, ys_part));
                    proof {
                        assert forall|g: int, k: int|
                            0 <= g < out@.len() && 0 <= k < out@[g].1@.len() implies m@.preimage(#[trigger] out@[g].1@[k]) is None
                                && ys@.contains(out@[g].1@[k]) by {
                            if g < old_out.len() {
                                assert(out@[g] == old_out[g]);
                            }
                        }
                        assert forall|g1: int, g2: int, k1: int, k2: int|
                            0 <= g1 < g2 < out@.len() && 0 <= k1 < out@[g1].0@.len() && 0 <= k2 < out@[g2].0@.len()
                                implies (#[trigger] out@[g1].0@[k1]).0 < (#[trigger] out@[g2].0@[k2]).0 by {
                            assert(out@[g1] == old_out[g1]);
                            if g2 < old_out.len() {
                                assert(out@[g2] == old_out[g2]);
                            }
                        }
                    }
                    y_start = if pos + 1 > y_start {
                        pos + 1
                    } else {
                        y_start
                    };
                }
            },
            None => {
                gap_x.push(xi);
            },
        }
        i = i + 1;
    }
    let rest = unmatched_ys(m, ys, y_start, ys.len());
    let ghost old_out = out@;
    out.push((gap_x, rest));
    proof {
        assert forall|g: int, k: int|
            0 <= g < out@.len() && 0 <= k < out@[g].1@.len() implies m@.preimage(#[trigger] out@[g].1@[k]) is None
                && ys@.contains(out@[g].1@[k]) by {
            if g < old_out.len() {
                assert(out@[g] == old_out[g]);
            }
        }
        assert forall|g1: int, g2: int, k1: int, k2: int|
            0 <= g1 < g2 < out@.len() && 0 <= k1 < out@[g1].0@.len() && 0 <= k2 < out@[g2].0@.len()
                implies (#[trigger] out@[g1].0@[k1]).0 < (#[trigger] out@[g2].0@[k2]).0 by {
            assert(out@[g1] == old_out[g1]);
            if g2 < old_out.len() {
                assert(out@[g2] == old_out[g2]);
            }
        }
    }
    out
}

/// The rows of an equality table as sequences.
pub open spec fn rows(same: Seq<Vec<bool>>) -> Seq<Seq<bool>> {
    same.map_values(|r: Vec<bool>| r@)
}

/// The length of a longest common subsequence of the suffixes from `i`
/// and `j`, where `same[i][j]` says whether the two elements are equal.
pub open spec fn lcs_len(same: Seq<Seq<bool>>, n: int, m: int, i: int, j: int) -> nat
    decreases (n - i) + (m - j),
{
    if i < 0 || j < 0 || i >= n || j >= m {
        0
    } else if same[i][j] {
        1 + lcs_len(same, n, m, i + 1, j + 1)
    } else {
        let down = lcs_len(same, n, m, i + 1, j);
        let right = lcs_len(same, n, m, i, j + 1);
        if down >= right {
            down
        } else {
            right
        }
    }
}

proof fn lemma_lcs_len_bound(same: Seq<Seq<bool>>, n: int, m: int, i: int, j: int)
    requires
        0 <= i <= n,
        0 <= j <= m,
    ensures
        lcs_len(same, n, m, i, j) <= n - i,
    decreases (n - i) + (m - j),
{
    if i < n && j < m {
        lemma_lcs_len_bound(same, n, m, i + 1, j + 1);
        lemma_lcs_len_bound(same, n, m, i + 1, j);
        lemma_lcs_len_bound(same, n, m, i, j + 1);
    }
}

/// `ps` is a common subsequence of the suffixes from `i` and `j`: index
/// pairs of equal elements, strictly increasing on both sides.
pub open spec fn is_common_subsequence(same: Seq<Seq<bool>>, n: int, m: int, i: int, j: int, ps: Seq<(int, int)>) -> bool {
    &&& forall|k: int|
        0 <= k < ps.len() ==> i <= (#[trigger] ps[k]).0 < n && j <= ps[k].1 < m && same[ps[k].0][ps[k].1]
    &&& forall|k1: int, k2: int|
        0 <= k1 < k2 < ps.len() ==> (#[trigger] ps[k1]).0 < (#[trigger] ps[k2]).0 && ps[k1].1 < ps[k2].1
}

/// `lcs_len` is the longest: no common subsequence of the two suffixes
/// has more pairs.
pub proof fn lemma_lcs_len_is_longest(same: Seq<Seq<bool>>, n: int, m: int, i: int, j: int, ps: Seq<(int, int)>)
    requires
        0 <= i <= n,
        0 <= j <= m,
        is_common_subsequence(same, n, m, i, j, ps),
    ensures
        ps.len() <= lcs_len(same, n, m, i, j),
    decreases (n - i) + (m - j),
{
    if ps.len() > 0 {
        let (p0, q0) = ps[0];
        assert(i <= p0 < n && j <= q0 < m);
        assert forall|k: int| 0 < k < ps.len() implies p0 < (#[trigger] ps[k]).0 && q0 < ps[k].1 by {
            assert(ps[0].0 < ps[k].0 && ps[0].1 < ps[k].1);
        }
        if same[i][j] {
            let rest = ps.drop_first();
            assert forall|k: int| 0 <= k < rest.len() implies i + 1 <= (#[trigger] rest[k]).0 < n && j + 1 <= rest[k].1
                < m && same[rest[k].0][rest[k].1] by {
                assert(rest[k] == ps[k + 1]);
            }
            assert forall|k1: int, k2: int| 0 <= k1 < k2 < rest.len() implies (#[trigger] rest[k1]).0 < (
            #[trigger] rest[k2]).0 && rest[k1].1 < rest[k2].1 by {
                assert(rest[k1] == ps[k1 + 1] && rest[k2] == ps[k2 + 1]);
            }
            lemma_lcs_len_is_longest(same, n, m, i + 1, j + 1, rest);
        } else if p0 > i {
            lemma_lcs_len_is_longest(same, n, m, i + 1, j, ps);
        } else {
            assert(q0 > j);
            assert forall|k: int| 0 <= k < ps.len() implies j + 1 <= (#[trigger] ps[k]).1 by {
                if k > 0 {
                    assert(q0 < ps[k].1);
                }
            }
            lemma_lcs_len_is_longest(same, n, m, i, j + 1, ps);
        }
    }
}

fn zero_row(len: usize) -> (r: Vec<usize>)
    ensures
        r@.len() == len,
        forall|k: int| 0 <= k < len ==> #[trigger] r@[k] == 0,
{
    let mut r: Vec<usize> = Vec::new();
    let mut k: usize = 0;
    while k < len
        invariant
            k <= len,
            r@.len() == k,
            forall|t: int| 0 <= t < k ==> #[trigger] r@[t] == 0,
        decreases len - k,
    {
        r.push(0);
        k = k + 1;
    }
    r
}

/// Longest common subsequence of two sequences given by their equality
/// table (`same[i][j]`: element `i` of the first equals element `j` of
/// the second), as index pairs in increasing order on both sides.
fn lcs_pairs(same: &Vec<Vec<bool>>, m: usize) -> (pairs: Vec<(usize, usize)>)
    requires
        same@.len() < usize::MAX,
        m < usize::MAX,
        forall|i: int| 0 <= i < same@.len() ==> (#[trigger] same@[i])@.len() == m,
    ensures
        pairs@.len() == lcs_len(rows(same@), same@.len() as int, m as int, 0, 0),
        forall|k: int|
            0 <= k < pairs@.len() ==> (#[trigger] pairs@[k]).0 < same@.len() && pairs@[k].1 < m
                && rows(same@)[pairs@[k].0 as int][pairs@[k].1 as int],
        forall|k1: int, k2: int|
            0 <= k1 < k2 < pairs@.len() ==> (#[trigger] pairs@[k1]).0 < (#[trigger] pairs@[k2]).0
                && pairs@[k1].1 < pairs@[k2].1,
        forall|ps: Seq<(int, int)>|
            #[trigger] is_common_subsequence(rows(same@), same@.len() as int, m as int, 0, 0, ps) ==> ps.len()
                <= pairs@.len(),
{
    proof {
        assert forall|ps: Seq<(int, int)>|
            #[trigger] is_common_subsequence(rows(same@), same@.len() as int, m as int, 0, 0, ps) implies ps.len()
                <= lcs_len(rows(same@), same@.len() as int, m as int, 0, 0) by {
            lemma_lcs_len_is_longest(rows(same@), same@.len() as int, m as int, 0, 0, ps);
        }
    }
    let n = same.len();
    let ghost sq = rows(same@);
    // Textbook suffix-length DP over an (n+1)×(m+1) table.
    let mut table: Vec<Vec<usize>> = Vec::new();
    let mut r: usize = 0;
    while r <= n
        invariant
            n < usize::MAX,
            m < usize::MAX,
            r <= n + 1,
            n == same@.len(),
            table@.len() == r,
            forall|t: int| 0 <= t < r ==> (#[trigger] table@[t])@.len() == m + 1,
            forall|t: int, c: int| 0 <= t < r && 0 <= c <= m ==> (#[trigger] table@[t]@[c]) == 0,
        decreases n + 1 - r,
    {
        table.push(zero_row(m + 1));
        r = r + 1;
    }
    let mut i = n;
    while i > 0
        invariant
            m < usize::MAX,
            i <= n,
            n == same@.len(),
            sq == rows(same@),
            forall|t: int| 0 <= t < n ==> (#[trigger] same@[t])@.len() == m,
            table@.len() == n + 1,
            forall|t: int| 0 <= t <= n ==> (#[trigger] table@[t])@.len() == m + 1,
            forall|t: int, c: int|
                i <= t <= n && 0 <= c <= m ==> (#[trigger] table@[t]@[c]) == lcs_len(sq, n as int, m as int, t, c),
        decreases i,
    {
        i = i - 1;
        let mut row = zero_row(m + 1);
        let mut j = m;
        while j > 0
            invariant
                i < n,
                j <= m,
                n == same@.len(),
                sq == rows(same@),
                forall|t: int| 0 <= t < n ==> (#[trigger] same@[t])@.len() == m,
                table@.len() == n + 1,
                forall|t: int| 0 <= t <= n ==> (#[trigger] table@[t])@.len() == m + 1,
                forall|t: int, c: int|
                    i < t <= n && 0 <= c <= m ==> (#[trigger] table@[t]@[c]) == lcs_len(sq, n as int, m as int, t, c),
                row@.len() == m + 1,
                forall|c: int| j <= c <= m ==> #[trigger] row@[c] == lcs_len(sq, n as int, m as int, i as int, c),
            decreases j,
        {
            j = j - 1;
            proof {
                assert(sq[i as int] == same@[i as int]@);
                lemma_lcs_len_bound(sq, n as int, m as int, i + 1, j + 1);
            }
            let v = if same[i][j] {
                table[i + 1][j + 1] + 1
            } else {
                let down = table[i + 1][j];
                let right = row[j + 1];
                if down >= right {
                    down
                } else {
                    right
                }
            };
            row.set(j, v);
        }
        proof {
            assert(row@[m as int] == 0);
        }
        table.set(i, row);
    }
    let mut pairs: Vec<(usize, usize)> = Vec::new();
    let mut i: usize = 0;
    let mut j: usize = 0;
    while i < n && j < m
        invariant
            i <= n,
            j <= m,
            n == same@.len(),
            sq == rows(same@),
            forall|t: int| 0 <= t < n ==> (#[trigger] same@[t])@.len() == m,
            table@.len() == n + 1,
            forall|t: int| 0 <= t <= n ==> (#[trigger] table@[t])@.len() == m + 1,
            forall|t: int, c: int|
                0 <= t <= n && 0 <= c <= m ==> (#[trigger] table@[t]@[c]) == lcs_len(sq, n as int, m as int, t, c),
            pairs@.len() + lcs_len(sq, n as int, m as int, i as int, j as int) == lcs_len(sq, n as int, m as int, 0, 0),
            forall|k: int|
                0 <= k < pairs@.len() ==> (#[trigger] pairs@[k]).0 < i && pairs@[k].1 < j
                    && sq[pairs@[k].0 as int][pairs@[k].1 as int],
            forall|k1: int, k2: int|
                0 <= k1 < k2 < pairs@.len() ==> (#[trigger] pairs@[k1]).0 < (#[trigger] pairs@[k2]).0
                    && pairs@[k1].1 < pairs@[k2].1,
        decreases (n - i) + (m - j),
    {
        proof {
            assert(sq[i as int] == same@[i as int]@);
        }
        if same[i][j] && table[i][j] == table[i + 1][j + 1] + 1 {
            pairs.push((i, j));
            i = i + 1;
            j = j + 1;
        } else if table[i + 1][j] >= table[i][j + 1] {
            i = i + 1;
        } else {
            j = j + 1;
        }
    }
    proof {
        assert(lcs_len(sq, n as int, m as int, i as int, j as int) == 0);
    }
    pairs
}

/// Kind and label agree for every matched pair below the root.
pub open spec fn shapes_agree_below_root(m: MatchingView, src: TreeView, dst: TreeView) -> bool {
    forall|i: int|
        #![trigger m.fwd[i]]
        0 < i < m.fwd.len() && m.fwd[i] is Some ==> src.kind_id(NodeId(i as usize)) == dst.kind_id(
            m.fwd[i].unwrap(),
        ) && src.label(NodeId(i as usize)) == dst.label(m.fwd[i].unwrap())
}

/// Kind agrees for every matched pair below the root.
pub open spec fn kinds_agree_below_root(m: MatchingView, src: TreeView, dst: TreeView) -> bool {
    forall|i: int|
        #![trigger m.fwd[i]]
        0 < i < m.fwd.len() && m.fwd[i] is Some ==> src.kind_id(NodeId(i as usize)) == dst.kind_id(
            m.fwd[i].unwrap(),
        )
}

/// The two roots are paired with each other.
pub open spec fn roots_paired(m: MatchingView) -> bool {
    &&& m.fwd.len() > 0
    &&& m.bwd.len() > 0
    &&& m.fwd[0] == Some(NodeId(0))
}

/// A strictly increasing run of node ids inside `[lo, hi)` is no longer
/// than the range.
proof fn lemma_increasing_len(xs: Seq<NodeId>, lo: int, hi: int)
    requires
        lo <= hi,
        increasing(xs),
        forall|k: int| 0 <= k < xs.len() ==> lo <= (#[trigger] xs[k]).0 < hi,
    ensures
        xs.len() <= hi - lo,
    decreases xs.len(),
{
    if xs.len() > 0 {
        let rest = xs.drop_last();
        let last = xs[xs.len() - 1];
        assert(xs.last() == last);
        assert(lo <= last.0 < hi);
        assert forall|k: int| 0 <= k < rest.len() implies lo <= (#[trigger] rest[k]).0 < last.0 by {
            assert(rest[k] == xs[k]);
        }
        lemma_increasing_len(rest, lo, last.0 as int);
        assert(rest.len() <= last.0 - lo);
        assert(xs.len() == rest.len() + 1);
    }
}

/// Child lists are strictly increasing, and their members are valid
/// nodes past their parent.
pub proof fn lemma_children(t: TreeView, x: NodeId)
    requires
        t.arena_wf(),
        t.valid(x),
    ensures
        increasing(t.children(x)),
        forall|k: int| 0 <= k < t.children(x).len() ==> x.0 < (#[trigger] t.children(x)[k]).0 < t.len(),
{
    assert forall|k1: int, k2: int| 0 <= k1 < k2 < t.children(x).len() implies (#[trigger] t.children(x)[k1]).0
        < (#[trigger] t.children(x)[k2]).0 by {
        assert(t.nodes[x.0 as int].children[k1] == t.children(x)[k1]);
        assert(t.nodes[x.0 as int].children[k2] == t.children(x)[k2]);
    }
    assert forall|k: int| 0 <= k < t.children(x).len() implies x.0 < (#[trigger] t.children(x)[k]).0 < t.len() by {
        assert(t.nodes[x.0 as int].children[k] == t.children(x)[k]);
    }
}

/// `same[i][j]`: the subtrees at `xs[i]` and `ys[j]` hash equal.
fn hash_table(src: &Tree, xs: &Vec<NodeId>, dst: &Tree, ys: &Vec<NodeId>) -> (same: Vec<Vec<bool>>)
    requires
        forall|k: int| 0 <= k < xs@.len() ==> src@.valid(#[trigger] xs@[k]),
        forall|k: int| 0 <= k < ys@.len() ==> dst@.valid(#[trigger] ys@[k]),
    ensures
        same@.len() == xs@.len(),
        forall|i: int| 0 <= i < same@.len() ==> (#[trigger] same@[i])@.len() == ys@.len(),
        forall|i: int, j: int|
            0 <= i < xs@.len() && 0 <= j < ys@.len() ==> (#[trigger] same@[i]@[j]) == (src@.hash(xs@[i])
                == dst@.hash(ys@[j])),
{
    let mut same: Vec<Vec<bool>> = Vec::new();
    let mut i: usize = 0;
    while i < xs.len()
        invariant
            i <= xs@.len(),
            forall|k: int| 0 <= k < xs@.len() ==> src@.valid(#[trigger] xs@[k]),
            forall|k: int| 0 <= k < ys@.len() ==> dst@.valid(#[trigger] ys@[k]),
            same@.len() == i,
            forall|r: int| 0 <= r < i ==> (#[trigger] same@[r])@.len() == ys@.len(),
            forall|r: int, c: int|
                0 <= r < i && 0 <= c < ys@.len() ==> (#[trigger] same@[r]@[c]) == (src@.hash(xs@[r])
                    == dst@.hash(ys@[c])),
        decreases xs@.len() - i,
    {
        let hx = src.hash(xs[i]);
        let mut row: Vec<bool> = Vec::new();
        let mut j: usize = 0;
        while j < ys.len()
            invariant
                i < xs@.len(),
                hx == src@.hash(xs@[i as int]),
                forall|k: int| 0 <= k < ys@.len() ==> dst@.valid(#[trigger] ys@[k]),
                j <= ys@.len(),
                row@.len() == j,
                forall|c: int| 0 <= c < j ==> #[trigger] row@[c] == (hx == dst@.hash(ys@[c])),
            decreases ys@.len() - j,
        {
            row.push(hx == dst.hash(ys[j]));
            j = j + 1;
        }
        same.push(row);
        i = i + 1;
    }
    same
}

/// `same[i][j]`: `xs[i]` and `ys[j]` agree in kind and label.
fn shape_table(src: &Tree, xs: &Vec<NodeId>, dst: &Tree, ys: &Vec<NodeId>) -> (same: Vec<Vec<bool>>)
    requires
        forall|k: int| 0 <= k < xs@.len() ==> src@.valid(#[trigger] xs@[k]),
        forall|k: int| 0 <= k < ys@.len() ==> dst@.valid(#[trigger] ys@[k]),
    ensures
        same@.len() == xs@.len(),
        forall|i: int| 0 <= i < same@.len() ==> (#[trigger] same@[i])@.len() == ys@.len(),
        forall|i: int, j: int|
            0 <= i < xs@.len() && 0 <= j < ys@.len() ==> (#[trigger] same@[i]@[j]) == (src@.kind_id(xs@[i])
                == dst@.kind_id(ys@[j]) && src@.label(xs@[i]) == dst@.label(ys@[j])),
{
    let mut same: Vec<Vec<bool>> = Vec::new();
    let mut i: usize = 0;
    while i < xs.len()
        invariant
            i <= xs@.len(),
            forall|k: int| 0 <= k < xs@.len() ==> src@.valid(#[trigger] xs@[k]),
            forall|k: int| 0 <= k < ys@.len() ==> dst@.valid(#[trigger] ys@[k]),
            same@.len() == i,
            forall|r: int| 0 <= r < i ==> (#[trigger] same@[r])@.len() == ys@.len(),
            forall|r: int, c: int|
                0 <= r < i && 0 <= c < ys@.len() ==> (#[trigger] same@[r]@[c]) == (src@.kind_id(xs@[r])
                    == dst@.kind_id(ys@[c]) && src@.label(xs@[r]) == dst@.label(ys@[c])),
        decreases xs@.len() - i,
    {
        let x = xs[i];
        let mut row: Vec<bool> = Vec::new();
        let mut j: usize = 0;
        while j < ys.len()
            invariant
                i < xs@.len(),
                x == xs@[i as int],
                src@.valid(x),
                forall|k: int| 0 <= k < ys@.len() ==> dst@.valid(#[trigger] ys@[k]),
                j <= ys@.len(),
                row@.len() == j,
                forall|c: int|
                    0 <= c < j ==> #[trigger] row@[c] == (src@.kind_id(x) == dst@.kind_id(ys@[c])
                        && src@.label(x) == dst@.label(ys@[c])),
            decreases ys@.len() - j,
        {
            let y = ys[j];
            row.push(src.kind_id(x) == dst.kind_id(y) && opt_str_eq(src.label(x), dst.label(y)));
            j = j + 1;
        }
        same.push(row);
        i = i + 1;
    }
    same
}

/// The equal-shape table of two node lists: same kind and same label.
pub open spec fn shape_rows(src: TreeView, dst: TreeView, xs: Seq<NodeId>, ys: Seq<NodeId>) -> Seq<Seq<bool>> {
    Seq::new(
        xs.len(),
        |i: int| Seq::new(ys.len(), |j: int| src.kind_id(xs[i]) == dst.kind_id(ys[j]) && src.label(xs[i]) == dst.label(ys[j])),
    )
}

/// The equal-hash table of two node lists.
pub open spec fn hash_rows(src: TreeView, dst: TreeView, xs: Seq<NodeId>, ys: Seq<NodeId>) -> Seq<Seq<bool>> {
    Seq::new(xs.len(), |i: int| Seq::new(ys.len(), |j: int| src.hash(xs[i]) == dst.hash(ys[j])))
}

/// The node pairs an index-pair list picks out of two node lists.
pub open spec fn pair_nodes(xs: Seq<NodeId>, ys: Seq<NodeId>, ps: Seq<(int, int)>) -> Seq<(NodeId, NodeId)> {
    ps.map_values(|p: (int, int)| (xs[p.0], ys[p.1]))
}

/// The image table after pairing `s` with `d`: `s` maps to `d`, and
/// whatever mapped to `d` before loses its image.
pub open spec fn with_pair_fwd(fwd: Seq<Option<NodeId>>, s: NodeId, d: NodeId) -> Seq<Option<NodeId>> {
    Seq::new(
        fwd.len(),
        |i: int|
            if i == s.0 {
                Some(d)
            } else if fwd[i] == Some(d) {
                None
            } else {
                fwd[i]
            },
    )
}

/// The image table after pairing each listed pair, in order.
pub open spec fn insert_all_fwd(fwd: Seq<Option<NodeId>>, ps: Seq<(NodeId, NodeId)>) -> Seq<Option<NodeId>>
    decreases ps.len(),
{
    if ps.len() == 0 {
        fwd
    } else {
        with_pair_fwd(insert_all_fwd(fwd, ps.drop_last()), ps.last().0, ps.last().1)
    }
}

/// The image table after matching the subtree at `s` wholesale onto
/// the one at `d`.
pub open spec fn overlay_fwd(src: TreeView, dst: TreeView, s: NodeId, d: NodeId, fwd: Seq<Option<NodeId>>) -> Seq<
    Option<NodeId>,
> {
    Seq::new(fwd.len(), |i: int| overlay_image(src, dst, s, d, MatchingView { fwd, bwd: Seq::empty() }, i))
}

/// The image table after the hash pass over the listed index pairs:
/// each pair whose subtrees are equal matches wholesale, in order.
pub open spec fn hash_overlay(
    src: TreeView,
    dst: TreeView,
    xs: Seq<NodeId>,
    ys: Seq<NodeId>,
    fwd: Seq<Option<NodeId>>,
    ps: Seq<(int, int)>,
) -> Seq<Option<NodeId>>
    decreases ps.len(),
{
    if ps.len() == 0 {
        fwd
    } else {
        let before = hash_overlay(src, dst, xs, ys, fwd, ps.drop_last());
        let (i, j) = ps.last();
        if src.subtree_eq(xs[i], dst, ys[j]) {
            overlay_fwd(src, dst, xs[i], ys[j], before)
        } else {
            before
        }
    }
}

/// Alignment pass one on a gap: equal-hash subtrees along a longest
/// common subsequence match wholesale.
fn align_hash_gap(m: &mut Matching, src: &Tree, dst: &Tree, gx: &Vec<NodeId>, gy: &Vec<NodeId>)
    requires
        old(m)@.wf(),
        old(m)@.fits(src@, dst@),
        roots_paired(old(m)@),
        forall|k: int| 0 <= k < gx@.len() ==> src@.valid(#[trigger] gx@[k]) && gx@[k].0 > 0,
        forall|k: int| 0 <= k < gy@.len() ==> dst@.valid(#[trigger] gy@[k]) && gy@[k].0 > 0,
        gx@.len() < usize::MAX,
        gy@.len() < usize::MAX,
    ensures
        final(m)@.wf(),
        final(m)@.fits(src@, dst@),
        shapes_agree_below_root(old(m)@, src@, dst@) ==> shapes_agree_below_root(final(m)@, src@, dst@),
        roots_paired(final(m)@),
        exists|ps: Seq<(int, int)>|
            #[trigger] is_common_subsequence(hash_rows(src@, dst@, gx@, gy@), gx@.len() as int, gy@.len() as int, 0, 0, ps)
                && ps.len() == lcs_len(hash_rows(src@, dst@, gx@, gy@), gx@.len() as int, gy@.len() as int, 0, 0)
                && final(m)@.fwd == hash_overlay(src@, dst@, gx@, gy@, old(m)@.fwd, ps),
{
    let ghost m0 = m@;
    let same = hash_table(src, gx, dst, gy);
    let pairs = lcs_pairs(&same, gy.len());
    let ghost ps = pairs@.map_values(|p: (usize, usize)| (p.0 as int, p.1 as int));
    let ghost table = hash_rows(src@, dst@, gx@, gy@);
    proof {
        assert forall|i: int| 0 <= i < gx@.len() implies #[trigger] rows(same@)[i] =~= table[i] by {}
        assert(rows(same@) =~= table);
        assert(is_common_subsequence(table, gx@.len() as int, gy@.len() as int, 0, 0, ps));
        assert(ps.take(0) =~= Seq::<(int, int)>::empty());
    }
    let mut k: usize = 0;
    while k < pairs.len()
        invariant
            m@.wf(),
            m@.fits(src@, dst@),
            shapes_agree_below_root(m0, src@, dst@) ==> shapes_agree_below_root(m@, src@, dst@),
            roots_paired(m@),
            forall|t: int| 0 <= t < gx@.len() ==> src@.valid(#[trigger] gx@[t]) && gx@[t].0 > 0,
            forall|t: int| 0 <= t < gy@.len() ==> dst@.valid(#[trigger] gy@[t]) && gy@[t].0 > 0,
            same@.len() == gx@.len(),
            forall|t: int| 0 <= t < pairs@.len() ==> (#[trigger] pairs@[t]).0 < same@.len() && pairs@[t].1 < gy@.len(),
            k <= pairs@.len(),
            ps == pairs@.map_values(|p: (usize, usize)| (p.0 as int, p.1 as int)),
            m@.fwd == hash_overlay(src@, dst@, gx@, gy@, m0.fwd, ps.take(k as int)),
        decreases pairs@.len() - k,
    {
        let ghost mk = m@;
        proof {
            assert(ps.take(k + 1).drop_last() =~= ps.take(k as int));
            assert(ps.take(k + 1).last() == ps[k as int]);
        }
        let (i, j) = pairs[k];
        let cx = gx[i];
        let cy = gy[j];
        // Same collision guard as anchoring: equal hashes are trusted
        // only after a structural check.
        if structural_eq(src, cx, dst, cy) {
            let ghost mb = m@;
            match_subtree(m, src, cx, dst, cy);
            proof {
                if shapes_agree_below_root(m0, src@, dst@) {
                    assert forall|t: int|
                        #![trigger m@.fwd[t]]
                        0 < t < m@.fwd.len() && m@.fwd[t] is Some implies src@.kind_id(NodeId(t as usize))
                            == dst@.kind_id(m@.fwd[t].unwrap()) && src@.label(NodeId(t as usize)) == dst@.label(
                            m@.fwd[t].unwrap(),
                        ) by {
                        if m@.fwd[t] != mb.fwd[t] {
                            assert(src@.subtree_eq(NodeId(t as usize), dst@, m@.fwd[t].unwrap()));
                        }
                    }
                }
                assert(mb.fwd[0] == Some(NodeId(0)));
                assert(m@.fwd =~= overlay_fwd(src@, dst@, cx, cy, mb.fwd));
            }
        }
        k = k + 1;
    }
    proof {
        assert(ps.take(pairs@.len() as int) =~= ps);
        assert(lcs_len(rows(same@), same@.len() as int, gy@.len() as int, 0, 0) == lcs_len(table, gx@.len() as int, gy@.len() as int, 0, 0));
    }
}

/// Alignment pass two on a gap: same-kind, same-label nodes along a
/// longest common subsequence pair up; the pairs are returned for
/// recursion, in src order.
fn align_kind_gap(m: &mut Matching, src: &Tree, dst: &Tree, gx: &Vec<NodeId>, gy: &Vec<NodeId>) -> (pushed: Vec<(NodeId, NodeId)>)
    requires
        old(m)@.wf(),
        old(m)@.fits(src@, dst@),
        roots_paired(old(m)@),
        forall|k: int| 0 <= k < gx@.len() ==> src@.valid(#[trigger] gx@[k]) && gx@[k].0 > 0,
        forall|k: int| 0 <= k < gy@.len() ==> dst@.valid(#[trigger] gy@[k]) && gy@[k].0 > 0,
        increasing(gx@),
        gx@.len() < usize::MAX,
        gy@.len() < usize::MAX,
    ensures
        final(m)@.wf(),
        final(m)@.fits(src@, dst@),
        shapes_agree_below_root(old(m)@, src@, dst@) ==> shapes_agree_below_root(final(m)@, src@, dst@),
        roots_paired(final(m)@),
        forall|k: int|
            #![trigger pushed@[k]]
            0 <= k < pushed@.len() ==> gx@.contains(pushed@[k].0)
                && dst@.valid(pushed@[k].1),
        increasing(pushed@.map_values(|p: (NodeId, NodeId)| p.0)),
        exists|ps: Seq<(int, int)>|
            #[trigger] is_common_subsequence(shape_rows(src@, dst@, gx@, gy@), gx@.len() as int, gy@.len() as int, 0, 0, ps)
                && ps.len() == lcs_len(shape_rows(src@, dst@, gx@, gy@), gx@.len() as int, gy@.len() as int, 0, 0)
                && pushed@ == pair_nodes(gx@, gy@, ps),
        final(m)@.fwd == insert_all_fwd(old(m)@.fwd, pushed@),
{
    let ghost m0 = m@;
    let same = shape_table(src, gx, dst, gy);
    let pairs = lcs_pairs(&same, gy.len());
    let ghost ps = pairs@.map_values(|p: (usize, usize)| (p.0 as int, p.1 as int));
    let ghost table = shape_rows(src@, dst@, gx@, gy@);
    proof {
        assert forall|i: int| 0 <= i < gx@.len() implies #[trigger] rows(same@)[i] =~= table[i] by {}
        assert(rows(same@) =~= table);
        assert(is_common_subsequence(table, gx@.len() as int, gy@.len() as int, 0, 0, ps));
    }
    let mut pushed: Vec<(NodeId, NodeId)> = Vec::new();
    let ghost mut last: int = -1;
    let mut k: usize = 0;
    proof {
        assert(pushed@ =~= pair_nodes(gx@, gy@, ps.take(0)));
    }
    while k < pairs.len()
        invariant
            m@.wf(),
            m@.fits(src@, dst@),
            shapes_agree_below_root(m0, src@, dst@) ==> shapes_agree_below_root(m@, src@, dst@),
            roots_paired(m@),
            forall|t: int| 0 <= t < gx@.len() ==> src@.valid(#[trigger] gx@[t]) && gx@[t].0 > 0,
            forall|t: int| 0 <= t < gy@.len() ==> dst@.valid(#[trigger] gy@[t]) && gy@[t].0 > 0,
            increasing(gx@),
            same@.len() == gx@.len(),
            forall|i: int| 0 <= i < same@.len() ==> (#[trigger] same@[i])@.len() == gy@.len(),
            forall|i: int, j: int|
                0 <= i < gx@.len() && 0 <= j < gy@.len() ==> (#[trigger] same@[i]@[j]) == (src@.kind_id(gx@[i])
                    == dst@.kind_id(gy@[j]) && src@.label(gx@[i]) == dst@.label(gy@[j])),
            forall|t: int|
                0 <= t < pairs@.len() ==> (#[trigger] pairs@[t]).0 < same@.len() && pairs@[t].1 < gy@.len()
                    && rows(same@)[pairs@[t].0 as int][pairs@[t].1 as int],
            forall|t1: int, t2: int|
                0 <= t1 < t2 < pairs@.len() ==> (#[trigger] pairs@[t1]).0 < (#[trigger] pairs@[t2]).0,
            k <= pairs@.len(),
            k < pairs@.len() ==> last < pairs@[k as int].0,
            forall|t: int|
                #![trigger pushed@[t]]
                0 <= t < pushed@.len() ==> gx@.contains(pushed@[t].0)
                    && dst@.valid(pushed@[t].1),
            forall|t: int| 0 <= t < pushed@.len() ==> (#[trigger] pushed@[t]).0.0 <= (if last < 0 { 0 } else { gx@[last].0 as int }),
            pushed@.len() > 0 ==> 0 <= last < gx@.len(),
            increasing(pushed@.map_values(|p: (NodeId, NodeId)| p.0)),
            ps == pairs@.map_values(|p: (usize, usize)| (p.0 as int, p.1 as int)),
            pushed@ == pair_nodes(gx@, gy@, ps.take(k as int)),
            m@.fwd == insert_all_fwd(m0.fwd, pushed@),
            m0.fwd.len() == src@.len(),
        decreases pairs@.len() - k,
    {
        let (i, j) = pairs[k];
        let cx = gx[i];
        let cy = gy[j];
        proof {
            assert(rows(same@)[i as int] == same@[i as int]@);
        }
        let ghost mb = m@;
        m.insert(cx, cy);
        let ghost before = pushed@;
        pushed.push((cx, cy));
        proof {
            assert(ps.take(k + 1) =~= ps.take(k as int).push(ps[k as int]));
            assert(pushed@ =~= pair_nodes(gx@, gy@, ps.take(k + 1)));
            assert(pushed@.drop_last() =~= before);
            assert(m@.fwd =~= with_pair_fwd(mb.fwd, cx, cy));
            if shapes_agree_below_root(m0, src@, dst@) {
                assert forall|t: int|
                    #![trigger m@.fwd[t]]
                    0 < t < m@.fwd.len() && m@.fwd[t] is Some implies src@.kind_id(NodeId(t as usize))
                        == dst@.kind_id(m@.fwd[t].unwrap()) && src@.label(NodeId(t as usize)) == dst@.label(
                        m@.fwd[t].unwrap(),
                    ) by {
                    if t != cx.0 {
                        assert(m@.fwd[t] == mb.fwd[t]);
                    }
                }
            }
            assert(mb.fwd[0] == Some(NodeId(0)));
            assert(m@.fwd[0] == Some(NodeId(0)));
            if before.len() > 0 {
                assert(last < i);
                assert(gx@[last].0 < gx@[i as int].0);
            }
            let ks = pushed@.map_values(|p: (NodeId, NodeId)| p.0);
            assert forall|t1: int, t2: int| 0 <= t1 < t2 < ks.len() implies (#[trigger] ks[t1]).0 < (#[trigger] ks[t2]).0 by {
                if t2 == ks.len() - 1 {
                    assert(ks[t1] == before[t1].0);
                } else {
                    assert(ks[t1] == before.map_values(|p: (NodeId, NodeId)| p.0)[t1]);
                    assert(ks[t2] == before.map_values(|p: (NodeId, NodeId)| p.0)[t2]);
                }
            }
            last = i as int;
        }
        k = k + 1;
    }
    proof {
        assert(ps.take(pairs@.len() as int) =~= ps);
        assert(lcs_len(rows(same@), same@.len() as int, gy@.len() as int, 0, 0) == lcs_len(table, gx@.len() as int, gy@.len() as int, 0, 0));
    }
    pushed
}

/// Diff phase 2: top-down recursive alignment from the root pair.
///
/// For each matched pair, the child sequences align in two LCS passes
/// per gap between fixed points (children phase 1 already matched):
/// first keyed on subtree hash (exact-equal subtrees match wholesale),
/// then keyed on (kind, label) — which pairs same-kind interior nodes to
/// recurse into, but never labeled leaves whose text differs. Those stay
/// unmatched: whether such a pair is a relabel or a delete+insert is
/// phase 3's call, made under Zhang–Shasha's cost model.
///
/// The roots pair unconditionally: the two trees share a language,
/// whose grammar uses its root kind nowhere else.
pub fn align(src: &Tree, dst: &Tree, m: &mut Matching)
    requires
        old(m)@.wf(),
        old(m)@.fits(src@, dst@),
    ensures
        final(m)@.wf(),
        final(m)@.fits(src@, dst@),
        shapes_agree_below_root(old(m)@, src@, dst@) ==> shapes_agree_below_root(final(m)@, src@, dst@),
        roots_paired(final(m)@),
{
    proof {
        use_type_invariant(src);
        use_type_invariant(dst);
    }
    let ghost m0 = m@;
    let n_src = src.node_count();
    let n_dst = dst.node_count();
    m.insert(src.root(), dst.root());
    proof {
        if shapes_agree_below_root(m0, src@, dst@) {
            assert forall|t: int|
                #![trigger m@.fwd[t]]
                0 < t < m@.fwd.len() && m@.fwd[t] is Some implies src@.kind_id(NodeId(t as usize))
                    == dst@.kind_id(m@.fwd[t].unwrap()) && src@.label(NodeId(t as usize)) == dst@.label(
                    m@.fwd[t].unwrap(),
                ) by {
                assert(m@.fwd[t] == m0.fwd[t]);
            }
        }
    }
    let mut work: Vec<(NodeId, NodeId)> = Vec::new();
    work.push((src.root(), dst.root()));
    let ghost key = |p: (NodeId, NodeId)| pair_key(p);
    loop
        invariant
            forall|p: (NodeId, NodeId)| #[trigger] key(p) == p.0.0,
            n_src == src@.len(),
            n_dst == dst@.len(),
            src@.wf(),
            dst@.wf(),
            m@.wf(),
            m@.fits(src@, dst@),
            shapes_agree_below_root(m0, src@, dst@) ==> shapes_agree_below_root(m@, src@, dst@),
            roots_paired(m@),
            forall|k: int| 0 <= k < work@.len() ==> src@.valid((#[trigger] work@[k]).0) && dst@.valid(work@[k].1),
        decreases weight(src@.len(), work@, key),
    {
        let ghost before = work@;
        let top = work.pop();
        let (x, y) = match top {
            None => break,
            Some(pair) => pair,
        };
        proof {
            assert(before == work@.push((x, y)));
            assert(before[before.len() - 1] == (x, y));
            lemma_children(src@, x);
            lemma_children(dst@, y);
        }
        let xs = src.children(x);
        let ys = dst.children(y);
        let gs = gaps(m, xs, ys);
        let mut g: usize = 0;
        while g < gs.len()
            invariant
                forall|p: (NodeId, NodeId)| #[trigger] key(p) == p.0.0,
                n_src == src@.len(),
                n_dst == dst@.len(),
                src@.wf(),
                dst@.wf(),
                m@.wf(),
                m@.fits(src@, dst@),
                shapes_agree_below_root(m0, src@, dst@) ==> shapes_agree_below_root(m@, src@, dst@),
                roots_paired(m@),
                src@.valid(x),
                dst@.valid(y),
                xs@ == src@.children(x),
                ys@ == dst@.children(y),
                forall|k: int| 0 <= k < xs@.len() ==> x.0 < (#[trigger] xs@[k]).0 < src@.len(),
                forall|k: int| 0 <= k < ys@.len() ==> y.0 < (#[trigger] ys@[k]).0 < dst@.len(),
                forall|h: int, k: int|
                    #![trigger gs@[h].0@[k]]
                    0 <= h < gs@.len() && 0 <= k < gs@[h].0@.len() ==> xs@.contains(gs@[h].0@[k]),
                forall|h: int, k: int|
                    #![trigger gs@[h].1@[k]]
                    0 <= h < gs@.len() && 0 <= k < gs@[h].1@.len() ==> ys@.contains(gs@[h].1@[k]),
                forall|h: int| 0 <= h < gs@.len() ==> increasing((#[trigger] gs@[h]).0@) && increasing(gs@[h].1@),
            decreases gs@.len() - g,
        {
            let gx = &gs[g].0;
            let gy = &gs[g].1;
            proof {
                assert forall|k: int| 0 <= k < gx@.len() implies src@.valid(#[trigger] gx@[k]) && gx@[k].0 > 0 && x.0 < gx@[k].0 by {
                    let t = choose|t: int| 0 <= t < xs@.len() && xs@[t] == gs@[g as int].0@[k];
                }
                assert forall|k: int| 0 <= k < gy@.len() implies dst@.valid(#[trigger] gy@[k]) && gy@[k].0 > 0 by {
                    let t = choose|t: int| 0 <= t < ys@.len() && ys@[t] == gs@[g as int].1@[k];
                }
                lemma_increasing_len(gx@, 1, src@.len() as int);
                lemma_increasing_len(gy@, 1, dst@.len() as int);
            }
            align_hash_gap(m, src, dst, gx, gy);
            g = g + 1;
        }
        // The hash pass narrowed the gaps; recompute them before the
        // same-kind pass so its matches cannot cross a hash match.
        let gs = gaps(m, xs, ys);
        let mut next: Vec<(NodeId, NodeId)> = Vec::new();
        let ghost mut hi: int = x.0 as int;
        let mut g: usize = 0;
        while g < gs.len()
            invariant
                forall|p: (NodeId, NodeId)| #[trigger] key(p) == p.0.0,
                n_src == src@.len(),
                n_dst == dst@.len(),
                src@.wf(),
                dst@.wf(),
                m@.wf(),
                m@.fits(src@, dst@),
                shapes_agree_below_root(m0, src@, dst@) ==> shapes_agree_below_root(m@, src@, dst@),
                roots_paired(m@),
                src@.valid(x),
                dst@.valid(y),
                xs@ == src@.children(x),
                ys@ == dst@.children(y),
                forall|k: int| 0 <= k < xs@.len() ==> x.0 < (#[trigger] xs@[k]).0 < src@.len(),
                forall|k: int| 0 <= k < ys@.len() ==> y.0 < (#[trigger] ys@[k]).0 < dst@.len(),
                forall|h: int, k: int|
                    #![trigger gs@[h].0@[k]]
                    0 <= h < gs@.len() && 0 <= k < gs@[h].0@.len() ==> xs@.contains(gs@[h].0@[k]),
                forall|h: int, k: int|
                    #![trigger gs@[h].1@[k]]
                    0 <= h < gs@.len() && 0 <= k < gs@[h].1@.len() ==> ys@.contains(gs@[h].1@[k]),
                forall|h: int| 0 <= h < gs@.len() ==> increasing((#[trigger] gs@[h]).0@) && increasing(gs@[h].1@),
                forall|g1: int, g2: int, k1: int, k2: int|
                    0 <= g1 < g2 < gs@.len() && 0 <= k1 < gs@[g1].0@.len() && 0 <= k2 < gs@[g2].0@.len()
                        ==> (#[trigger] gs@[g1].0@[k1]).0 < (#[trigger] gs@[g2].0@[k2]).0,
                g <= gs@.len(),
                x.0 <= hi,
                forall|h: int, k: int| g <= h < gs@.len() && 0 <= k < gs@[h].0@.len() ==> hi < (#[trigger] gs@[h].0@[k]).0,
                forall|k: int| 0 <= k < next@.len() ==> x.0 < (#[trigger] next@[k]).0.0 <= hi,
                forall|k: int| 0 <= k < next@.len() ==> src@.valid((#[trigger] next@[k]).0) && dst@.valid(next@[k].1),
                crate::walk::above(src@.len(), x.0, next@.map_values(key)),
            decreases gs@.len() - g,
        {
            let gx = &gs[g].0;
            let gy = &gs[g].1;
            proof {
                assert forall|k: int| 0 <= k < gx@.len() implies src@.valid(#[trigger] gx@[k]) && gx@[k].0 > 0 && hi < gx@[k].0 by {
                    let t = choose|t: int| 0 <= t < xs@.len() && xs@[t] == gs@[g as int].0@[k];
                }
                assert forall|k: int| 0 <= k < gy@.len() implies dst@.valid(#[trigger] gy@[k]) && gy@[k].0 > 0 by {
                    let t = choose|t: int| 0 <= t < ys@.len() && ys@[t] == gs@[g as int].1@[k];
                }
                lemma_increasing_len(gx@, 1, src@.len() as int);
                lemma_increasing_len(gy@, 1, dst@.len() as int);
            }
            let pushed = align_kind_gap(m, src, dst, gx, gy);
            let mut k: usize = 0;
            let ghost hi0 = hi;
            while k < pushed.len()
                invariant
                    forall|p: (NodeId, NodeId)| #[trigger] key(p) == p.0.0,
                    k <= pushed@.len(),
                    forall|t: int| 0 <= t < gx@.len() ==> src@.valid(#[trigger] gx@[t]) && hi0 < gx@[t].0,
                    forall|t: int|
                        #![trigger pushed@[t]]
                        0 <= t < pushed@.len() ==> gx@.contains(pushed@[t].0)
                            && dst@.valid(pushed@[t].1),
                    increasing(pushed@.map_values(|p: (NodeId, NodeId)| p.0)),
                    x.0 <= hi0 <= hi,
                    k > 0 ==> hi == pushed@[k - 1].0.0,
                    k == 0 ==> hi == hi0,
                    forall|t: int| 0 <= t < next@.len() ==> x.0 < (#[trigger] next@[t]).0.0 <= hi,
                    forall|t: int| 0 <= t < next@.len() ==> src@.valid((#[trigger] next@[t]).0) && dst@.valid(next@[t].1),
                    crate::walk::above(src@.len(), x.0, next@.map_values(key)),
                    src@.wf(),
                decreases pushed@.len() - k,
            {
                let p = pushed[k];
                let ghost old_next = next@;
                proof {
                    let u = choose|u: int| 0 <= u < gx@.len() && gx@[u] == pushed@[k as int].0;
                    if k > 0 {
                        let ks = pushed@.map_values(|p: (NodeId, NodeId)| p.0);
                        assert(ks[k - 1] == pushed@[k - 1].0 && ks[k as int] == pushed@[k as int].0);
                    }
                    assert(hi < p.0.0);
                    assert(p.0.0 < src@.len());
                }
                next.push(p);
                proof {
                    hi = p.0.0 as int;
                    let nk = next@.map_values(key);
                    assert forall|t: int| 0 <= t < nk.len() implies x.0 < #[trigger] nk[t] <= src@.len() by {
                        assert(nk[t] == next@[t].0.0);
                    }
                    assert forall|t1: int, t2: int| 0 <= t1 < t2 < nk.len() implies #[trigger] nk[t1] < #[trigger] nk[t2] by {
                        assert(nk[t1] == next@[t1].0.0);
                        assert(nk[t2] == next@[t2].0.0);
                        if t2 < old_next.len() {
                            assert(old_next.map_values(key)[t1] == nk[t1]);
                            assert(old_next.map_values(key)[t2] == nk[t2]);
                        }
                    }
                }
                k = k + 1;
            }
            proof {
                assert forall|h: int, t: int| g + 1 <= h < gs@.len() && 0 <= t < gs@[h].0@.len() implies hi < (#[trigger] gs@[h].0@[t]).0 by {
                    if hi != hi0 {
                        let u = choose|u: int| 0 <= u < gx@.len() && gx@[u] == pushed@[pushed@.len() - 1].0;
                        assert(gs@[g as int].0@[u].0 < gs@[h].0@[t].0);
                    }
                }
            }
            g = g + 1;
        }
        let ghost rest = work@;
        let mut k: usize = 0;
        while k < next.len()
            invariant
                k <= next@.len(),
                work@ == rest + next@.subrange(0, k as int),
                forall|t: int| 0 <= t < rest.len() ==> src@.valid((#[trigger] rest[t]).0) && dst@.valid(rest[t].1),
                forall|t: int| 0 <= t < next@.len() ==> src@.valid((#[trigger] next@[t]).0) && dst@.valid(next@[t].1),
                forall|t: int| 0 <= t < work@.len() ==> src@.valid((#[trigger] work@[t]).0) && dst@.valid(work@[t].1),
            decreases next@.len() - k,
        {
            work.push(next[k]);
            k = k + 1;
            proof {
                assert(work@ =~= rest + next@.subrange(0, k as int));
                assert forall|t: int| 0 <= t < work@.len() implies src@.valid((#[trigger] work@[t]).0) && dst@.valid(work@[t].1) by {
                    if t >= rest.len() {
                        assert(work@[t] == next@[t - rest.len()]);
                    }
                }
            }
        }
        proof {
            assert(next@.subrange(0, next@.len() as int) =~= next@);
            lemma_pop_push(src@.len(), rest, (x, y), next@, key);
        }
    }
}

/// The largest residue (total nodes across both sides of a gap) that
/// phase 3 will hand to Zhang–Shasha, whose DP is quartic in the worst
/// case. Over budget, a gap stays unmatched: delete+insert is
/// conservative, never wrong.
pub const ZS_BUDGET: usize = 400;

/// Every value of a residue tree is a node of `t` at index `lo` or
/// later.
pub open spec fn values_from(vals: Seq<Option<NodeId>>, t: TreeView, lo: int) -> bool {
    forall|k: int| 0 <= k < vals.len() ==> (#[trigger] vals[k] matches Some(x) && t.valid(x) && lo <= x.0)
}

/// Every node among `vals` is `a` or lies below it.
pub open spec fn values_under(vals: Seq<Option<NodeId>>, t: TreeView, a: NodeId) -> bool {
    forall|k: int| 0 <= k < vals.len() ==> (#[trigger] vals[k] matches Some(x) ==> anc_or_self(t.nodes, a, x))
}

/// A child lies below its parent.
proof fn lemma_child_below(t: TreeView, p: NodeId, c: NodeId)
    requires
        t.arena_wf(),
        t.valid(p),
        t.children(p).contains(c),
    ensures
        anc_in(t.nodes, p, c),
{
    let k = choose|k: int| 0 <= k < t.children(p).len() && t.children(p)[k] == c;
    assert(t.nodes[p.0 as int].children[k] == c);
}

proof fn lemma_forest_under(ts: Seq<ZsTree<Option<NodeId>>>, t: TreeView, a: NodeId)
    requires
        forall|k: int| 0 <= k < ts.len() ==> values_under(zs_values(#[trigger] ts[k]), t, a),
    ensures
        values_under(forest_values(ts), t, a),
    decreases ts.len(),
{
    if ts.len() > 0 {
        let rest = ts.drop_last();
        assert forall|k: int| 0 <= k < rest.len() implies values_under(zs_values(#[trigger] rest[k]), t, a) by {
            assert(rest[k] == ts[k]);
        }
        lemma_forest_under(rest, t, a);
        assert(values_under(zs_values(ts[ts.len() - 1]), t, a));
        let fv = forest_values(ts);
        assert(fv == forest_values(rest) + zs_values(ts.last()));
        assert forall|k: int| 0 <= k < fv.len() implies (#[trigger] fv[k] matches Some(x) ==> anc_or_self(t.nodes, a, x)) by {
            if k < forest_values(rest).len() {
                assert(fv[k] == forest_values(rest)[k]);
            } else {
                assert(fv[k] == zs_values(ts.last())[k - forest_values(rest).len()]);
            }
        }
    }
}

proof fn lemma_forest_values_from(ts: Seq<ZsTree<Option<NodeId>>>, t: TreeView, lo: int)
    requires
        forall|k: int| 0 <= k < ts.len() ==> values_from(zs_values(#[trigger] ts[k]), t, lo),
    ensures
        values_from(forest_values(ts), t, lo),
    decreases ts.len(),
{
    if ts.len() > 0 {
        let rest = ts.drop_last();
        assert forall|k: int| 0 <= k < rest.len() implies values_from(zs_values(#[trigger] rest[k]), t, lo) by {
            assert(rest[k] == ts[k]);
        }
        lemma_forest_values_from(rest, t, lo);
        assert(values_from(zs_values(ts[ts.len() - 1]), t, lo));
        let fv = forest_values(ts);
        assert(fv == forest_values(rest) + zs_values(ts.last()));
        assert forall|k: int| 0 <= k < fv.len() implies (#[trigger] fv[k] matches Some(x) && t.valid(x) && lo <= x.0) by {
            if k < forest_values(rest).len() {
                assert(fv[k] == forest_values(rest)[k]);
            } else {
                assert(fv[k] == zs_values(ts.last())[k - forest_values(rest).len()]);
            }
        }
    }
}

/// `x` has no partner on its side of `m`.
pub open spec fn free_in(m: MatchingView, src_side: bool, x: NodeId) -> bool {
    if src_side {
        m.fwd[x.0 as int] is None
    } else {
        m.bwd[x.0 as int] is None
    }
}

/// Every value of a residue is free on its side of `m`.
pub open spec fn all_free(vals: Seq<Option<NodeId>>, m: MatchingView, src_side: bool) -> bool {
    forall|k: int| 0 <= k < vals.len() ==> (#[trigger] vals[k] matches Some(x) ==> free_in(m, src_side, x))
}

proof fn lemma_forest_all_free(ts: Seq<ZsTree<Option<NodeId>>>, m: MatchingView, src_side: bool)
    requires
        forall|k: int| 0 <= k < ts.len() ==> all_free(zs_values(#[trigger] ts[k]), m, src_side),
    ensures
        all_free(forest_values(ts), m, src_side),
    decreases ts.len(),
{
    if ts.len() > 0 {
        let rest = ts.drop_last();
        assert forall|k: int| 0 <= k < rest.len() implies all_free(zs_values(#[trigger] rest[k]), m, src_side) by {
            assert(rest[k] == ts[k]);
        }
        lemma_forest_all_free(rest, m, src_side);
        assert(all_free(zs_values(ts[ts.len() - 1]), m, src_side));
        let fv = forest_values(ts);
        assert(fv == forest_values(rest) + zs_values(ts.last()));
        assert forall|k: int| 0 <= k < fv.len() implies (#[trigger] fv[k] matches Some(x) ==> free_in(m, src_side, x)) by {
            if k < forest_values(rest).len() {
                assert(fv[k] == forest_values(rest)[k]);
            } else {
                assert(fv[k] == zs_values(ts.last())[k - forest_values(rest).len()]);
            }
        }
    }
}

/// A node free in a matching is free in every matching it retains.
proof fn lemma_free_retained(now: MatchingView, earlier: MatchingView, src_side: bool, x: NodeId)
    requires
        now.wf(),
        earlier.wf(),
        now.retains(earlier),
        src_side ==> x.0 < now.fwd.len(),
        !src_side ==> x.0 < now.bwd.len(),
        free_in(now, src_side, x),
    ensures
        free_in(earlier, src_side, x),
{
    if src_side {
        if earlier.fwd[x.0 as int] is Some {
            assert(now.fwd[x.0 as int] == earlier.fwd[x.0 as int]);
        }
    } else {
        if let Some(s) = earlier.bwd[x.0 as int] {
            assert(earlier.fwd[s.0 as int] matches Some(d) && d.0 == x.0);
            assert(now.fwd[s.0 as int] == earlier.fwd[s.0 as int]);
        }
    }
}

/// `node`'s subtree as a ZS tree, matched descendants pruned, with its
/// node count (saturating). A matched descendant's own residues belong
/// to that pair's gaps, not this one.
fn pruned_tree(tree: &Tree, node: NodeId, m: &Matching, src_side: bool) -> (r: (ZsTree<Option<NodeId>>, usize))
    requires
        tree@.valid(node),
        m@.wf(),
        src_side ==> m@.fwd.len() == tree@.len(),
        !src_side ==> m@.bwd.len() == tree@.len(),
    ensures
        r.0.value == Some(node),
        values_from(zs_values(r.0), tree@, node.0 as int),
        forall|k: int|
            0 <= k < zs_values(r.0).len() ==> (#[trigger] zs_values(r.0)[k] matches Some(x) ==> x == node || free_in(
                m@,
                src_side,
                x,
            )),
        r.1 == (if zs_size(r.0) <= usize::MAX { zs_size(r.0) as usize } else { usize::MAX }),
        values_under(zs_values(r.0), tree@, node),
    decreases tree@.len() - node.0,
{
    proof {
        use_type_invariant(tree);
        lemma_children(tree@, node);
    }
    let kids = tree.children(node);
    let mut children: Vec<ZsTree<Option<NodeId>>> = Vec::new();
    let mut size: usize = 0;
    let mut k: usize = 0;
    while k < kids.len()
        invariant
            tree@.wf(),
            tree@.valid(node),
            m@.wf(),
            src_side ==> m@.fwd.len() == tree@.len(),
            !src_side ==> m@.bwd.len() == tree@.len(),
            kids@ == tree@.children(node),
            forall|j: int| 0 <= j < kids@.len() ==> node.0 < (#[trigger] kids@[j]).0 < tree@.len(),
            k <= kids@.len(),
            forall|j: int| 0 <= j < children@.len() ==> values_from(zs_values(#[trigger] children@[j]), tree@, node.0 + 1),
            forall|j: int| 0 <= j < children@.len() ==> all_free(zs_values(#[trigger] children@[j]), m@, src_side),
            forall|j: int| 0 <= j < children@.len() ==> values_under(zs_values(#[trigger] children@[j]), tree@, node),
            size == (if forest_values(children@).len() <= usize::MAX {
                forest_values(children@).len() as usize
            } else {
                usize::MAX
            }),
        decreases kids@.len() - k,
    {
        let c = kids[k];
        let matched = if src_side {
            m.image(c).is_some()
        } else {
            m.preimage(c).is_some()
        };
        if !matched {
            let (sub, sub_size) = pruned_tree(tree, c, m, src_side);
            let ghost before = children@;
            children.push(sub);
            proof {
                assert(children@.drop_last() == before);
                assert(forest_values(children@) == forest_values(before) + zs_values(sub));
                assert forall|j: int| 0 <= j < children@.len() implies values_from(zs_values(#[trigger] children@[j]), tree@, node.0 + 1) by {
                    if j < before.len() {
                        assert(children@[j] == before[j]);
                    } else {
                        let vals = zs_values(sub);
                        assert forall|t: int| 0 <= t < vals.len() implies (#[trigger] vals[t] matches Some(x) && tree@.valid(x) && node.0 + 1 <= x.0) by {
                            assert(vals[t] matches Some(x) && c.0 <= x.0);
                        }
                    }
                }
                assert(kids@[k as int] == c);
                lemma_child_below(tree@, node, c);
                assert forall|j: int| 0 <= j < children@.len() implies values_under(zs_values(#[trigger] children@[j]), tree@, node) by {
                    if j < before.len() {
                        assert(children@[j] == before[j]);
                    } else {
                        let vals = zs_values(sub);
                        assert forall|t: int| 0 <= t < vals.len() implies (#[trigger] vals[t] matches Some(x) ==> anc_or_self(tree@.nodes, node, x)) by {
                            if let Some(x) = vals[t] {
                                crate::embed::lemma_anc_or_self_trans(tree@, node, c, x);
                            }
                        }
                    }
                }
                assert forall|j: int| 0 <= j < children@.len() implies all_free(zs_values(#[trigger] children@[j]), m@, src_side) by {
                    if j < before.len() {
                        assert(children@[j] == before[j]);
                    } else {
                        let vals = zs_values(sub);
                        assert forall|t: int| 0 <= t < vals.len() implies (#[trigger] vals[t] matches Some(x) ==> free_in(m@, src_side, x)) by {
                            assert(vals[t] matches Some(x) ==> x == c || free_in(m@, src_side, x));
                        }
                    }
                }
            }
            size = size.saturating_add(sub_size);
        }
        k = k + 1;
    }
    let total = size.saturating_add(1);
    let t = ZsTree { value: Some(node), children };
    proof {
        lemma_forest_values_from(t.children@, tree@, node.0 + 1);
        let vals = zs_values(t);
        assert(vals == forest_values(t.children@) + seq![Some(node)]);
        assert forall|j: int| 0 <= j < vals.len() implies (#[trigger] vals[j] matches Some(x) && tree@.valid(x) && node.0 <= x.0) by {
            if j < forest_values(t.children@).len() {
                assert(vals[j] == forest_values(t.children@)[j]);
            }
        }
        lemma_forest_all_free(t.children@, m@, src_side);
        lemma_forest_under(t.children@, tree@, node);
        assert forall|j: int| 0 <= j < vals.len() implies (#[trigger] vals[j] matches Some(x) ==> anc_or_self(tree@.nodes, node, x)) by {
            if j < forest_values(t.children@).len() {
                assert(vals[j] == forest_values(t.children@)[j]);
            }
        }
        assert forall|j: int| 0 <= j < vals.len() implies (#[trigger] vals[j] matches Some(x) ==> x == node || free_in(m@, src_side, x)) by {
            if j < forest_values(t.children@).len() {
                assert(vals[j] == forest_values(t.children@)[j]);
            }
        }
    }
    (t, total)
}

/// The cost phase 3 charges for matching two residue values: the
/// virtual forest roots pair freely, same-kind nodes cost 0 with equal
/// labels and 1 otherwise, and anything else never matches.
pub open spec fn residue_cost(src: TreeView, dst: TreeView, s: Option<NodeId>, d: Option<NodeId>) -> Option<u32> {
    match (s, d) {
        (None, None) => Some(0),
        (Some(x), Some(y)) => if src.kind_id(x) == dst.kind_id(y) {
            if src.label(x) == dst.label(y) {
                Some(0)
            } else {
                Some(1)
            }
        } else {
            None
        },
        _ => None,
    }
}

/// Diff phase 3: bounded Zhang–Shasha on the residues.
///
/// For every matched pair whose child gaps still hold unmatched nodes
/// on both sides, the gap's forests — pruned of matched descendants,
/// whose residues belong to their own pair's gap — run through the
/// optimal edit mapping under phase costs: relabel 1 within a kind,
/// never across kinds, insert/delete 1. Running per gap keeps every
/// folded pair inside the fixed points that bound it, so the fold
/// cannot cross an anchor and needs no demotion pass.
pub fn refine(src: &Tree, dst: &Tree, m: &mut Matching)
    requires
        old(m)@.wf(),
        old(m)@.fits(src@, dst@),
    ensures
        final(m)@.wf(),
        final(m)@.fits(src@, dst@),
        final(m)@.retains(old(m)@),
        added_agree(final(m)@, old(m)@, src@, dst@),
        added_below(final(m)@, old(m)@, src@, dst@),
        kinds_agree_below_root(old(m)@, src@, dst@) ==> kinds_agree_below_root(final(m)@, src@, dst@),
        roots_paired(old(m)@) ==> roots_paired(final(m)@),
{
    proof {
        use_type_invariant(src);
        use_type_invariant(dst);
    }
    let ghost m0 = m@;
    let pairs = m.pairs();
    proof {
        lemma_pairs_of(m@.fwd);
    }
    let mut pi: usize = 0;
    while pi < pairs.len()
        invariant
            src@.wf(),
            dst@.wf(),
            m@.wf(),
            m@.fits(src@, dst@),
            added_agree(m@, m0, src@, dst@),
            added_below(m@, m0, src@, dst@),
            m0.wf(),
            m@.retains(m0),
            forall|k: int| 0 <= k < pairs@.len() ==> src@.valid((#[trigger] pairs@[k]).0) && dst@.valid(pairs@[k].1),
            forall|k: int| 0 <= k < pairs@.len() ==> m0.fwd[(#[trigger] pairs@[k]).0.0 as int] == Some(pairs@[k].1),
        decreases pairs@.len() - pi,
    {
        let (p, q) = pairs[pi];
        pi = pi + 1;
        proof {
            lemma_children(src@, p);
            lemma_children(dst@, q);
        }
        let ghost mp = m@;
        let gs = gaps(m, src.children(p), dst.children(q));
        let mut g: usize = 0;
        while g < gs.len()
            invariant
                src@.wf(),
                dst@.wf(),
                m@.wf(),
                m@.fits(src@, dst@),
                added_agree(m@, m0, src@, dst@),
                added_below(m@, m0, src@, dst@),
                m0.fwd[p.0 as int] == Some(q),
                m0.wf(),
                mp.wf(),
                m@.retains(m0),
                mp.retains(m0),
                forall|h: int, k: int|
                    #![trigger gs@[h].0@[k]]
                    0 <= h < gs@.len() && 0 <= k < gs@[h].0@.len() ==> mp.image(gs@[h].0@[k]) is None,
                forall|h: int, k: int|
                    #![trigger gs@[h].1@[k]]
                    0 <= h < gs@.len() && 0 <= k < gs@[h].1@.len() ==> mp.preimage(gs@[h].1@[k]) is None,
                src@.valid(p),
                dst@.valid(q),
                forall|h: int, k: int|
                    #![trigger gs@[h].0@[k]]
                    0 <= h < gs@.len() && 0 <= k < gs@[h].0@.len() ==> src@.children(p).contains(gs@[h].0@[k]),
                forall|h: int, k: int|
                    #![trigger gs@[h].1@[k]]
                    0 <= h < gs@.len() && 0 <= k < gs@[h].1@.len() ==> dst@.children(q).contains(gs@[h].1@[k]),
                forall|k: int| 0 <= k < src@.children(p).len() ==> p.0 < (#[trigger] src@.children(p)[k]).0 < src@.len(),
                forall|k: int| 0 <= k < dst@.children(q).len() ==> q.0 < (#[trigger] dst@.children(q)[k]).0 < dst@.len(),
            decreases gs@.len() - g,
        {
            let gx = &gs[g].0;
            let gy = &gs[g].1;
            g = g + 1;
            if gx.len() == 0 || gy.len() == 0 {
                continue;
            }
            proof {
                assert forall|k: int| 0 <= k < gx@.len() implies src@.valid(#[trigger] gx@[k]) && 1 <= gx@[k].0 by {
                    assert(src@.children(p).contains(gs@[g - 1].0@[k]));
                }
                assert forall|k: int| 0 <= k < gy@.len() implies dst@.valid(#[trigger] gy@[k]) && 1 <= gy@[k].0 by {
                    assert(dst@.children(q).contains(gs@[g - 1].1@[k]));
                }
                assert forall|k: int| 0 <= k < gx@.len() implies free_in(m0, true, #[trigger] gx@[k]) by {
                    assert(mp.image(gs@[g - 1].0@[k]) is None);
                    assert(src@.children(p).contains(gs@[g - 1].0@[k]));
                    lemma_free_retained(mp, m0, true, gx@[k]);
                }
                assert forall|k: int| 0 <= k < gy@.len() implies free_in(m0, false, #[trigger] gy@[k]) by {
                    assert(mp.preimage(gs@[g - 1].1@[k]) is None);
                    assert(dst@.children(q).contains(gs@[g - 1].1@[k]));
                    lemma_free_retained(mp, m0, false, gy@[k]);
                }
            }
            proof {
                assert forall|t: int| 0 <= t < gx@.len() implies src@.children(p).contains(#[trigger] gx@[t]) by {
                    assert(src@.children(p).contains(gs@[g - 1].0@[t]));
                }
                assert forall|t: int| 0 <= t < gy@.len() implies dst@.children(q).contains(#[trigger] gy@[t]) by {
                    assert(dst@.children(q).contains(gs@[g - 1].1@[t]));
                }
            }
            let mut src_children: Vec<ZsTree<Option<NodeId>>> = Vec::new();
            let mut src_size: usize = 0;
            let mut k: usize = 0;
            while k < gx.len()
                invariant
                    m@.wf(),
                    m@.fits(src@, dst@),
                    forall|t: int| 0 <= t < gx@.len() ==> src@.valid(#[trigger] gx@[t]) && 1 <= gx@[t].0,
                    forall|t: int| 0 <= t < gx@.len() ==> free_in(m0, true, #[trigger] gx@[t]),
                    m0.wf(),
                    m@.retains(m0),
                    forall|j: int| 0 <= j < src_children@.len() ==> all_free(zs_values(#[trigger] src_children@[j]), m0, true),
                    forall|j: int| 0 <= j < src_children@.len() ==> values_below(zs_values(#[trigger] src_children@[j]), src@, p),
                    forall|t: int| 0 <= t < gx@.len() ==> src@.children(p).contains(#[trigger] gx@[t]),
                    src@.wf(),
                    src@.valid(p),
                    k <= gx@.len(),
                    forall|j: int| 0 <= j < src_children@.len() ==> values_from(zs_values(#[trigger] src_children@[j]), src@, 1),
                    src_size == (if forest_values(src_children@).len() <= usize::MAX {
                        forest_values(src_children@).len() as usize
                    } else {
                        usize::MAX
                    }),
                decreases gx@.len() - k,
            {
                let (sub, sub_size) = pruned_tree(src, gx[k], m, true);
                let ghost before = src_children@;
                src_children.push(sub);
                proof {
                    lemma_child_below(src@, p, gx@[k as int]);
                    assert forall|j: int| 0 <= j < src_children@.len() implies values_below(zs_values(#[trigger] src_children@[j]), src@, p) by {
                        if j < before.len() {
                            assert(src_children@[j] == before[j]);
                        } else {
                            let vals = zs_values(sub);
                            assert forall|t: int| 0 <= t < vals.len() implies (#[trigger] vals[t] matches Some(x) ==> anc_in(src@.nodes, p, x)) by {
                                if let Some(x) = vals[t] {
                                    if x != gx@[k as int] {
                                        crate::tree::lemma_anc_trans(src@, p, gx@[k as int], x);
                                    }
                                }
                            }
                        }
                    }
                    assert(src_children@.drop_last() == before);
                    assert(forest_values(src_children@) == forest_values(before) + zs_values(sub));
                    assert forall|j: int| 0 <= j < src_children@.len() implies values_from(zs_values(#[trigger] src_children@[j]), src@, 1) by {
                        if j < before.len() {
                            assert(src_children@[j] == before[j]);
                        } else {
                            let vals = zs_values(sub);
                            assert forall|t: int| 0 <= t < vals.len() implies (#[trigger] vals[t] matches Some(x) && src@.valid(x) && 1 <= x.0) by {
                                assert(vals[t] matches Some(x) && gx@[k as int].0 <= x.0);
                            }
                        }
                    }
                    assert forall|j: int| 0 <= j < src_children@.len() implies all_free(zs_values(#[trigger] src_children@[j]), m0, true) by {
                        if j < before.len() {
                            assert(src_children@[j] == before[j]);
                        } else {
                            let vals = zs_values(sub);
                            assert forall|t: int| 0 <= t < vals.len() implies (#[trigger] vals[t] matches Some(x) ==> free_in(m0, true, x)) by {
                                if let Some(x) = vals[t] {
                                    assert(src@.valid(x));
                                    if x != gx@[k as int] {
                                        lemma_free_retained(m@, m0, true, x);
                                    }
                                }
                            }
                        }
                    }
                }
                src_size = src_size.saturating_add(sub_size);
                k = k + 1;
            }
            let mut dst_children: Vec<ZsTree<Option<NodeId>>> = Vec::new();
            let mut dst_size: usize = 0;
            let mut k: usize = 0;
            while k < gy.len()
                invariant
                    m@.wf(),
                    m@.fits(src@, dst@),
                    forall|t: int| 0 <= t < gy@.len() ==> dst@.valid(#[trigger] gy@[t]) && 1 <= gy@[t].0,
                    forall|t: int| 0 <= t < gy@.len() ==> free_in(m0, false, #[trigger] gy@[t]),
                    m0.wf(),
                    m@.retains(m0),
                    forall|j: int| 0 <= j < src_children@.len() ==> all_free(zs_values(#[trigger] src_children@[j]), m0, true),
                    forall|j: int| 0 <= j < dst_children@.len() ==> all_free(zs_values(#[trigger] dst_children@[j]), m0, false),
                    forall|j: int| 0 <= j < src_children@.len() ==> values_below(zs_values(#[trigger] src_children@[j]), src@, p),
                    forall|j: int| 0 <= j < dst_children@.len() ==> values_below(zs_values(#[trigger] dst_children@[j]), dst@, q),
                    forall|t: int| 0 <= t < gy@.len() ==> dst@.children(q).contains(#[trigger] gy@[t]),
                    dst@.wf(),
                    dst@.valid(q),
                    k <= gy@.len(),
                    forall|j: int| 0 <= j < dst_children@.len() ==> values_from(zs_values(#[trigger] dst_children@[j]), dst@, 1),
                    dst_size == (if forest_values(dst_children@).len() <= usize::MAX {
                        forest_values(dst_children@).len() as usize
                    } else {
                        usize::MAX
                    }),
                decreases gy@.len() - k,
            {
                let (sub, sub_size) = pruned_tree(dst, gy[k], m, false);
                let ghost before = dst_children@;
                dst_children.push(sub);
                proof {
                    lemma_child_below(dst@, q, gy@[k as int]);
                    assert forall|j: int| 0 <= j < dst_children@.len() implies values_below(zs_values(#[trigger] dst_children@[j]), dst@, q) by {
                        if j < before.len() {
                            assert(dst_children@[j] == before[j]);
                        } else {
                            let vals = zs_values(sub);
                            assert forall|t: int| 0 <= t < vals.len() implies (#[trigger] vals[t] matches Some(x) ==> anc_in(dst@.nodes, q, x)) by {
                                if let Some(x) = vals[t] {
                                    if x != gy@[k as int] {
                                        crate::tree::lemma_anc_trans(dst@, q, gy@[k as int], x);
                                    }
                                }
                            }
                        }
                    }
                    assert(dst_children@.drop_last() == before);
                    assert(forest_values(dst_children@) == forest_values(before) + zs_values(sub));
                    assert forall|j: int| 0 <= j < dst_children@.len() implies values_from(zs_values(#[trigger] dst_children@[j]), dst@, 1) by {
                        if j < before.len() {
                            assert(dst_children@[j] == before[j]);
                        } else {
                            let vals = zs_values(sub);
                            assert forall|t: int| 0 <= t < vals.len() implies (#[trigger] vals[t] matches Some(x) && dst@.valid(x) && 1 <= x.0) by {
                                assert(vals[t] matches Some(x) && gy@[k as int].0 <= x.0);
                            }
                        }
                    }
                    assert forall|j: int| 0 <= j < dst_children@.len() implies all_free(zs_values(#[trigger] dst_children@[j]), m0, false) by {
                        if j < before.len() {
                            assert(dst_children@[j] == before[j]);
                        } else {
                            let vals = zs_values(sub);
                            assert forall|t: int| 0 <= t < vals.len() implies (#[trigger] vals[t] matches Some(x) ==> free_in(m0, false, x)) by {
                                if let Some(x) = vals[t] {
                                    assert(dst@.valid(x));
                                    if x != gy@[k as int] {
                                        lemma_free_retained(m@, m0, false, x);
                                    }
                                }
                            }
                        }
                    }
                }
                dst_size = dst_size.saturating_add(sub_size);
                k = k + 1;
            }
            if src_size.saturating_add(dst_size) > ZS_BUDGET {
                continue;
            }
            let src_forest = ZsTree { value: None, children: src_children };
            let dst_forest = ZsTree { value: None, children: dst_children };
            proof {
                lemma_forest_values_from(src_forest.children@, src@, 1);
                lemma_forest_values_from(dst_forest.children@, dst@, 1);
                lemma_forest_all_free(src_forest.children@, m0, true);
                lemma_forest_all_free(dst_forest.children@, m0, false);
                lemma_forest_below(src_forest.children@, src@, p);
                lemma_forest_below(dst_forest.children@, dst@, q);
                assert(zs_values(src_forest) == forest_values(src_forest.children@) + seq![None::<NodeId>]);
                assert(zs_values(dst_forest) == forest_values(dst_forest.children@) + seq![None::<NodeId>]);
                assert(zs_size(src_forest) + zs_size(dst_forest) <= crate::zs::SIZE_LIMIT);
            }
            let relabel = |s: Option<NodeId>, d: Option<NodeId>| -> (r: Option<u32>)
                requires
                    s matches Some(x) ==> src@.valid(x),
                    d matches Some(y) ==> dst@.valid(y),
                ensures
                    r == residue_cost(src@, dst@, s, d),
                {
                    match (s, d) {
                        (None, None) => Some(0),
                        (Some(x), Some(y)) => {
                            if src.kind_id(x) == dst.kind_id(y) {
                                if opt_str_eq(src.label(x), dst.label(y)) {
                                    Some(0)
                                } else {
                                    Some(1)
                                }
                            } else {
                                None
                            }
                        },
                        _ => None,
                    }
                };
            proof {
                assert forall|a: Option<NodeId>, b: Option<NodeId>|
                    zs_values(src_forest).contains(a) && zs_values(dst_forest).contains(b) implies call_requires(relabel, (a, b)) by {
                    let i = choose|i: int| 0 <= i < zs_values(src_forest).len() && zs_values(src_forest)[i] == a;
                    let j = choose|j: int| 0 <= j < zs_values(dst_forest).len() && zs_values(dst_forest)[j] == b;
                    if i < forest_values(src_forest.children@).len() {
                        assert(zs_values(src_forest)[i] == forest_values(src_forest.children@)[i]);
                    }
                    if j < forest_values(dst_forest.children@).len() {
                        assert(zs_values(dst_forest)[j] == forest_values(dst_forest.children@)[j]);
                    }
                }
            }
            proof {
                assert(crate::zs::prices_consistently(relabel, zs_values(src_forest), zs_values(dst_forest)));
            }
            let mapped = crate::zs::mapping(&src_forest, &dst_forest, relabel);
            let mut t: usize = 0;
            while t < mapped.len()
                invariant
                    m@.wf(),
                    m@.fits(src@, dst@),
                    added_agree(m@, m0, src@, dst@),
                    added_below(m@, m0, src@, dst@),
                    m0.fwd[p.0 as int] == Some(q),
                    src@.valid(p),
                    dst@.valid(q),
                    values_below(forest_values(src_forest.children@), src@, p),
                    values_below(forest_values(dst_forest.children@), dst@, q),
                    forall|j: int|
                        0 <= j < mapped@.len() ==> zs_values(src_forest).contains((#[trigger] mapped@[j]).0)
                            && zs_values(dst_forest).contains(mapped@[j].1),
                    forall|j: int| 0 <= j < mapped@.len() ==> crate::zs::permitted(relabel, (#[trigger] mapped@[j]).0, mapped@[j].1),
                    forall|a: Option<NodeId>, b: Option<NodeId>, r: Option<u32>|
                        call_ensures(relabel, (a, b), r) ==> r == residue_cost(src@, dst@, a, b),
                    values_from(forest_values(src_forest.children@), src@, 1),
                    values_from(forest_values(dst_forest.children@), dst@, 1),
                    m0.wf(),
                    m@.retains(m0),
                    all_free(forest_values(src_forest.children@), m0, true),
                    all_free(forest_values(dst_forest.children@), m0, false),
                    zs_values(src_forest) == forest_values(src_forest.children@) + seq![None::<NodeId>],
                    zs_values(dst_forest) == forest_values(dst_forest.children@) + seq![None::<NodeId>],
                decreases mapped@.len() - t,
            {
                let (s, d) = mapped[t];
                if let (Some(x), Some(y)) = (s, d) {
                    proof {
                        let i = choose|i: int| 0 <= i < zs_values(src_forest).len() && zs_values(src_forest)[i] == s;
                        let j = choose|j: int| 0 <= j < zs_values(dst_forest).len() && zs_values(dst_forest)[j] == d;
                        assert(i < forest_values(src_forest.children@).len());
                        assert(zs_values(src_forest)[i] == forest_values(src_forest.children@)[i]);
                        assert(j < forest_values(dst_forest.children@).len());
                        assert(zs_values(dst_forest)[j] == forest_values(dst_forest.children@)[j]);
                        let c = choose|c: u32| call_ensures(relabel, (s, d), Some(c));
                        assert(residue_cost(src@, dst@, s, d) == Some(c));
                        assert(forest_values(src_forest.children@)[i] == Some(x));
                        assert(forest_values(dst_forest.children@)[j] == Some(y));
                        assert(m0.fwd[x.0 as int] is None);
                        assert(m0.bwd[y.0 as int] is None);
                        assert(anc_in(src@.nodes, p, x));
                        assert(anc_in(dst@.nodes, q, y));
                        assert(below_pair(m0, src@, dst@, x, y));
                    }
                    let ghost mb = m@;
                    m.insert(x, y);
                    proof {
                        assert forall|i: int|
                            #![trigger m@.fwd[i]]
                            0 <= i < m@.fwd.len() && m@.fwd[i] is Some && m0.fwd[i] is None implies below_pair(
                                m0,
                                src@,
                                dst@,
                                NodeId(i as usize),
                                m@.fwd[i].unwrap(),
                            ) by {
                            if i != x.0 {
                                assert(m@.fwd[i] == mb.fwd[i]);
                            } else {
                                assert(NodeId(i as usize) == x);
                            }
                        }
                        assert forall|i: int|
                            #![trigger m@.fwd[i]]
                            0 <= i < m@.fwd.len() && m@.fwd[i] is Some && m0.fwd[i] is None implies src@.kind_id(
                                NodeId(i as usize),
                            ) == dst@.kind_id(m@.fwd[i].unwrap()) by {
                            if i != x.0 {
                                assert(m@.fwd[i] == mb.fwd[i]);
                            }
                        }
                        assert forall|t: int|
                            #![trigger m0.fwd[t]]
                            0 <= t < m0.fwd.len() && m0.fwd[t] is Some implies m@.fwd[t] == m0.fwd[t] by {
                            assert(mb.fwd[t] == m0.fwd[t]);
                            let d = m0.fwd[t].unwrap();
                            assert(m0.bwd[d.0 as int] matches Some(z) && z.0 == t);
                        }
                    }
                }
                t = t + 1;
            }
        }
    }
    proof {
        lemma_added_agree(m@, m0, src@, dst@);
    }
}

/// Every node among `vals` lies strictly below `a`.
pub open spec fn values_below(vals: Seq<Option<NodeId>>, t: TreeView, a: NodeId) -> bool {
    forall|k: int| 0 <= k < vals.len() ==> (#[trigger] vals[k] matches Some(x) ==> anc_in(t.nodes, a, x))
}

proof fn lemma_forest_below(ts: Seq<ZsTree<Option<NodeId>>>, t: TreeView, a: NodeId)
    requires
        forall|k: int| 0 <= k < ts.len() ==> values_below(zs_values(#[trigger] ts[k]), t, a),
    ensures
        values_below(forest_values(ts), t, a),
    decreases ts.len(),
{
    if ts.len() > 0 {
        let rest = ts.drop_last();
        assert forall|k: int| 0 <= k < rest.len() implies values_below(zs_values(#[trigger] rest[k]), t, a) by {
            assert(rest[k] == ts[k]);
        }
        lemma_forest_below(rest, t, a);
        assert(values_below(zs_values(ts[ts.len() - 1]), t, a));
        let fv = forest_values(ts);
        assert(fv == forest_values(rest) + zs_values(ts.last()));
        assert forall|k: int| 0 <= k < fv.len() implies (#[trigger] fv[k] matches Some(x) ==> anc_in(t.nodes, a, x)) by {
            if k < forest_values(rest).len() {
                assert(fv[k] == forest_values(rest)[k]);
            } else {
                assert(fv[k] == zs_values(ts.last())[k - forest_values(rest).len()]);
            }
        }
    }
}

/// `x` and `y` lie strictly below the two nodes of a pair `earlier`
/// holds.
pub open spec fn below_pair(earlier: MatchingView, src: TreeView, dst: TreeView, x: NodeId, y: NodeId) -> bool {
    exists|p: NodeId|
        #![trigger earlier.fwd[p.0 as int]]
        p.0 < earlier.fwd.len() && (earlier.fwd[p.0 as int] matches Some(q) && anc_in(src.nodes, p, x) && anc_in(
            dst.nodes,
            q,
            y,
        ))
}

/// Every pair of `m` that `earlier` did not hold lies below a pair it
/// did.
pub open spec fn added_below(m: MatchingView, earlier: MatchingView, src: TreeView, dst: TreeView) -> bool {
    forall|i: int|
        #![trigger m.fwd[i]]
        0 <= i < m.fwd.len() && m.fwd[i] is Some && earlier.fwd[i] is None ==> below_pair(
            earlier,
            src,
            dst,
            NodeId(i as usize),
            m.fwd[i].unwrap(),
        )
}

/// Every pair of `m` that `earlier` did not hold joins nodes of one kind.
pub open spec fn added_agree(m: MatchingView, earlier: MatchingView, src: TreeView, dst: TreeView) -> bool {
    forall|i: int|
        #![trigger m.fwd[i]]
        0 <= i < m.fwd.len() && m.fwd[i] is Some && earlier.fwd[i] is None ==> src.kind_id(NodeId(i as usize))
            == dst.kind_id(m.fwd[i].unwrap())
}

/// A matching that keeps an earlier one and pairs only nodes of one kind
/// besides keeps the earlier one's kind agreement and root pair.
proof fn lemma_added_agree(m: MatchingView, earlier: MatchingView, src: TreeView, dst: TreeView)
    requires
        m.retains(earlier),
        added_agree(m, earlier, src, dst),
    ensures
        kinds_agree_below_root(earlier, src, dst) ==> kinds_agree_below_root(m, src, dst),
        roots_paired(earlier) ==> roots_paired(m),
{
    if kinds_agree_below_root(earlier, src, dst) {
        assert forall|i: int|
            #![trigger m.fwd[i]]
            0 < i < m.fwd.len() && m.fwd[i] is Some implies src.kind_id(NodeId(i as usize)) == dst.kind_id(
                m.fwd[i].unwrap(),
            ) by {
            if earlier.fwd[i] is Some {
                assert(m.fwd[i] == earlier.fwd[i]);
            }
        }
    }
}

/// Identical subtrees agree in kind and label at every pair below the
/// root.
proof fn lemma_identical_shapes(m: MatchingView, src: TreeView, dst: TreeView)
    requires
        pairs_identical(m, src, dst),
    ensures
        shapes_agree_below_root(m, src, dst),
{
    assert forall|i: int|
        #![trigger m.fwd[i]]
        0 < i < m.fwd.len() && m.fwd[i] is Some implies src.kind_id(NodeId(i as usize)) == dst.kind_id(
            m.fwd[i].unwrap(),
        ) && src.label(NodeId(i as usize)) == dst.label(m.fwd[i].unwrap()) by {
        assert(src.subtree_eq(NodeId(i as usize), dst, m.fwd[i].unwrap()));
    }
}

/// `m` has the shape every diff's matching has: well-formed, sized for
/// the two trees, the roots paired, and every other pair of one kind.
/// (Which pairs a diff picks is not said here.)
pub open spec fn diff_shaped(src: TreeView, dst: TreeView, m: MatchingView) -> bool {
    &&& m.wf()
    &&& m.fits(src, dst)
    &&& roots_paired(m)
    &&& kinds_agree_below_root(m, src, dst)
}

/// Diffs `src` against `dst`: anchoring, alignment, then bounded
/// Zhang–Shasha refinement.
///
/// The roots pair with each other, and every other matched pair shares
/// a kind.
pub fn diff(src: &Tree, dst: &Tree) -> (m: Matching)
    ensures
        m@.wf(),
        m@.fits(src@, dst@),
        roots_paired(m@),
        kinds_agree_below_root(m@, src@, dst@),
{
    let mut m = anchor(src, dst);
    proof {
        lemma_identical_shapes(m@, src@, dst@);
    }
    align(src, dst, &mut m);
    refine(src, dst, &mut m);
    m
}

/// One edit of an edit script, derived from a matching.
#[derive(Debug, Clone, Copy, PartialEq, Eq, Structural)]
pub enum Edit {
    /// A src node without an image.
    Delete(NodeId),
    /// A dst node without a preimage.
    Insert(NodeId),
    /// A matched pair whose labels differ.
    Relabel(NodeId, NodeId),
}

/// The edits of the first `n` src nodes: a deletion for each unmatched
/// node, a relabel for each matched node whose label changed.
pub open spec fn src_edits(src: TreeView, dst: TreeView, m: MatchingView, n: nat) -> Seq<Edit>
    decreases n,
{
    if n == 0 {
        seq![]
    } else {
        let x = NodeId((n - 1) as usize);
        let rest = src_edits(src, dst, m, (n - 1) as nat);
        match m.image(x) {
            None => rest.push(Edit::Delete(x)),
            Some(y) => if src.label(x) != dst.label(y) {
                rest.push(Edit::Relabel(x, y))
            } else {
                rest
            },
        }
    }
}

/// The insertions among the first `n` dst nodes: one per node without a
/// preimage.
pub open spec fn dst_edits(m: MatchingView, n: nat) -> Seq<Edit>
    decreases n,
{
    if n == 0 {
        seq![]
    } else {
        let y = NodeId((n - 1) as usize);
        let rest = dst_edits(m, (n - 1) as nat);
        if m.preimage(y) is None {
            rest.push(Edit::Insert(y))
        } else {
            rest
        }
    }
}

/// The edit script of a matching: src-side edits in src pre-order, then
/// insertions in dst pre-order.
pub open spec fn edit_script(src: TreeView, dst: TreeView, m: MatchingView) -> Seq<Edit> {
    src_edits(src, dst, m, src.len()) + dst_edits(m, dst.len())
}

/// The edit script a matching implies: deletions and relabels in src
/// pre-order, then insertions in dst pre-order.
pub fn edits(src: &Tree, dst: &Tree, m: &Matching) -> (r: Vec<Edit>)
    requires
        m@.wf(),
        m@.fits(src@, dst@),
    ensures
        r@ == edit_script(src@, dst@, m@),
{
    let mut out: Vec<Edit> = Vec::new();
    let n = src.node_count();
    let mut i: usize = 0;
    while i < n
        invariant
            n == src@.len(),
            m@.fits(src@, dst@),
            m@.wf(),
            i <= n,
            out@ == src_edits(src@, dst@, m@, i as nat),
        decreases n - i,
    {
        let x = NodeId(i);
        match m.image(x) {
            None => out.push(Edit::Delete(x)),
            Some(y) => {
                if !opt_str_eq(src.label(x), dst.label(y)) {
                    out.push(Edit::Relabel(x, y));
                }
            },
        }
        i = i + 1;
    }
    let ghost src_part = out@;
    let n = dst.node_count();
    let mut j: usize = 0;
    while j < n
        invariant
            n == dst@.len(),
            m@.fits(src@, dst@),
            m@.wf(),
            j <= n,
            out@ == src_part + dst_edits(m@, j as nat),
        decreases n - j,
    {
        let y = NodeId(j);
        if m.preimage(y).is_none() {
            out.push(Edit::Insert(y));
        }
        j = j + 1;
        proof {
            assert(out@ =~= src_part + dst_edits(m@, j as nat));
        }
    }
    out
}

/// A tree's shape: kinds, labels, and nesting, without spans. Two trees
/// with equal shapes are structurally identical.
#[derive(Debug, PartialEq, Eq)]
pub struct Shape {
    pub kind_id: u16,
    pub label: Option<String>,
    pub children: Vec<Shape>,
}

/// The text of an optional label.
pub open spec fn label_view(label: Option<String>) -> Option<Seq<char>> {
    match label {
        Some(s) => Some(s@),
        None => None,
    }
}

/// `shape` is the shape of `t`'s subtree at `id`.
pub open spec fn shape_of(shape: Shape, t: TreeView, id: NodeId) -> bool
    decreases shape,
{
    &&& t.valid(id)
    &&& shape.kind_id == t.kind_id(id)
    &&& label_view(shape.label) == t.label(id)
    &&& shape.children@.len() == t.children(id).len()
    &&& forall|k: int|
        #![trigger shape.children@[k]]
        0 <= k < shape.children@.len() ==> shape_of(shape.children@[k], t, t.children(id)[k])
}

impl Shape {
    /// The shape of the whole tree.
    pub fn of(tree: &Tree) -> (r: Shape)
        ensures
            shape_of(r, tree@, NodeId(0)),
    {
        Shape::of_node(tree, tree.root())
    }

    /// The shape of the subtree at `id`.
    pub fn of_node(tree: &Tree, id: NodeId) -> (r: Shape)
        requires
            tree@.valid(id),
        ensures
            shape_of(r, tree@, id),
        decreases tree@.len() - id.0,
    {
        proof {
            use_type_invariant(tree);
            lemma_children(tree@, id);
        }
        let kids = tree.children(id);
        let mut children: Vec<Shape> = Vec::new();
        let mut k: usize = 0;
        while k < kids.len()
            invariant
                tree@.wf(),
                kids@ == tree@.children(id),
                forall|j: int| 0 <= j < kids@.len() ==> id.0 < (#[trigger] kids@[j]).0 < tree@.len(),
                k <= kids@.len(),
                children@.len() == k,
                forall|j: int| 0 <= j < k ==> shape_of(#[trigger] children@[j], tree@, kids@[j]),
            decreases kids@.len() - k,
        {
            children.push(Shape::of_node(tree, kids[k]));
            k = k + 1;
        }
        let label = match tree.label(id) {
            Some(text) => Some(String::from_str(text)),
            None => None,
        };
        Shape { kind_id: tree.kind_id(id), label, children }
    }
}

/// Proper ancestry composes along the parent chain.
proof fn lemma_is_anc_trans(t: TreeView, a: NodeId, b: NodeId, c: NodeId)
    requires
        t.arena_wf(),
        b.0 < t.len(),
        t.parent(b) == Some(a),
        b == c || t.is_anc(b, c),
    ensures
        t.is_anc(a, c),
    decreases c.0,
{
    if b.0 == 0 {
        assert(t.nodes[0].parent is None);
    }
    assert(t.nodes[b.0 as int].parent matches Some(q) && q.0 < b.0);
    assert(t.is_anc(a, b));
    if b != c {
        let p = t.parent(c).unwrap();
        if p != b {
            lemma_is_anc_trans(t, a, b, p);
        }
    }
}

/// Whether `ancestor` is a proper ancestor of `node`.
fn is_ancestor(tree: &Tree, ancestor: NodeId, node: NodeId) -> (r: bool)
    requires
        tree@.valid(node),
    ensures
        r == tree@.is_anc(ancestor, node),
{
    proof {
        use_type_invariant(tree);
    }
    let mut cur = node;
    loop
        invariant
            tree@.wf(),
            tree@.valid(cur),
            tree@.is_anc(ancestor, node) == tree@.is_anc(ancestor, cur),
        decreases cur.0,
    {
        match tree.parent(cur) {
            None => return false,
            Some(current) => {
                proof {
                    if cur.0 == 0 {
                        assert(tree@.nodes[0].parent is None);
                    }
                    assert(tree@.nodes[cur.0 as int].parent matches Some(p) && p.0 < cur.0);
                }
                if current == ancestor {
                    return true;
                }
                cur = current;
            },
        }
    }
}

} // verus!
