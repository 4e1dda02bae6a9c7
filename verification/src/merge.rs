//! The merge pushout: given f: O→A and g: O→B, construct M so both
//! branches' edits land exactly once.
//!
//! Survivors are O nodes with images under both diffs; relabels apply
//! to survivors (identical relabels dedupe); inserted branch subtrees
//! graft at their parent's image after the nearest preceding placed
//! sibling, A's before B's in the same slot, equal insertions deduped
//! by subtree hash. Conflict rules refine this construction; the
//! conflict-free path is built here.

use std::ops::Range;

use vstd::prelude::*;
use vstd::string::{StrSliceExecFns, StringExecFns};

use std::collections::HashMap;

use crate::diff::{diff, edit_script, edits, diff_shaped, label_view, roots_paired, Edit, Matching, MatchingView, Shape};
use crate::check::{check, diffs_shaped, all_violations, Branch as CheckBranch, Violation, ViolationView};
use crate::error::Error;
use crate::lang::Lang;
use crate::rules::{conflicts, reports_findings, rules_fire, Ctx, CtxView};
use crate::rules::{element_groups, group_scan, hashes_of};
use crate::text::{opt_str_eq, opt_view};
use crate::tree::{anc_in, anc_or_self, reparsed_as, NodeId, Tree, TreeView};

verus! {

/// Where a merge node's content comes from: a surviving O node, or a
/// node contributed by one branch (an insertion, or a relabel target).
#[derive(Debug, Clone, Copy, PartialEq, Eq, Structural)]
pub enum Origin {
    O(NodeId),
    A(NodeId),
    B(NodeId),
}

/// An index into a [`MergedTree`] arena.
#[derive(Debug, Clone, Copy, PartialEq, Eq, Structural)]
pub struct MergedId(pub usize);

#[derive(Debug)]
struct MergedNode {
    origin: Origin,
    children: Vec<MergedId>,
}

/// A merged tree as the specifications see it: each node's origin and
/// children.
pub struct MergedView {
    pub nodes: Seq<(Origin, Seq<MergedId>)>,
    pub root: MergedId,
}

/// The node an origin names, in whichever tree.
pub open spec fn origin_node(origin: Origin) -> NodeId {
    match origin {
        Origin::O(n) => n,
        Origin::A(n) => n,
        Origin::B(n) => n,
    }
}

/// The tree an origin points into, among O, A, and B.
pub open spec fn origin_tree(origin: Origin, o: TreeView, a: TreeView, b: TreeView) -> (TreeView, NodeId) {
    match origin {
        Origin::O(n) => (o, n),
        Origin::A(n) => (a, n),
        Origin::B(n) => (b, n),
    }
}

/// Where a merge node may come from, given the diffs f: O→A and
/// g: O→B: an O node both branches kept with their labels unchanged; a
/// branch node the branch inserted; or the relabeled image of a node
/// both kept — A's when A relabeled it, B's when only B did.
pub open spec fn origin_sound(
    origin: Origin,
    o: TreeView,
    a: TreeView,
    b: TreeView,
    f: MatchingView,
    g: MatchingView,
) -> bool {
    match origin {
        Origin::O(x) => f.image(x) matches Some(ya) && g.image(x) matches Some(yb) && a.label(ya) == o.label(x)
            && b.label(yb) == o.label(x),
        Origin::A(y) => f.preimage(y) is None || (f.preimage(y) matches Some(x) && g.image(x) is Some && a.label(y)
            != o.label(x)),
        Origin::B(y) => g.preimage(y) is None || (g.preimage(y) matches Some(x) && f.image(x) matches Some(ya)
            && a.label(ya) == o.label(x) && b.label(y) != o.label(x)),
    }
}

/// The label a node both branches kept carries in the merge: A's when
/// A relabeled it, otherwise B's when B did, otherwise O's.
pub open spec fn merged_label(
    x: NodeId,
    o: TreeView,
    a: TreeView,
    b: TreeView,
    f: MatchingView,
    g: MatchingView,
) -> Option<Seq<char>> {
    let la = a.label(f.image(x).unwrap());
    let lb = b.label(g.image(x).unwrap());
    if la != o.label(x) {
        la
    } else if lb != o.label(x) {
        lb
    } else {
        o.label(x)
    }
}

/// A merge node comes from the inputs: a node both branches kept —
/// through O's node or either branch's copy of it — carrying its merged
/// label, or a node one branch inserted.
pub open spec fn origin_from_inputs(
    origin: Origin,
    o: TreeView,
    a: TreeView,
    b: TreeView,
    f: MatchingView,
    g: MatchingView,
) -> bool {
    match origin {
        Origin::O(x) => f.image(x) is Some && g.image(x) is Some && o.label(x) == merged_label(x, o, a, b, f, g),
        Origin::A(y) => f.preimage(y) is None || (f.preimage(y) matches Some(x) && g.image(x) is Some && a.label(y)
            == merged_label(x, o, a, b, f, g)),
        Origin::B(y) => g.preimage(y) is None || (g.preimage(y) matches Some(x) && f.image(x) is Some && b.label(y)
            == merged_label(x, o, a, b, f, g)),
    }
}

impl MergedView {
    /// Every node comes from the inputs: a survivor with its merged
    /// label, or a branch insertion.
    pub open spec fn from_inputs(self, o: TreeView, a: TreeView, b: TreeView, f: MatchingView, g: MatchingView) -> bool {
        forall|i: int|
            #![trigger self.nodes[i]]
            0 <= i < self.nodes.len() ==> origin_from_inputs(self.nodes[i].0, o, a, b, f, g)
    }

    /// The arena is one tree: every node but the root is some node's
    /// child.
    pub open spec fn connected(self) -> bool {
        forall|i: int| 0 <= i < self.nodes.len() && i != self.root.0 ==> #[trigger] self.has_parent(i)
    }

    /// Some node lists node `i` among its children.
    pub open spec fn has_parent(self, i: int) -> bool {
        exists|j: int| 0 <= j < self.nodes.len() && #[trigger] self.nodes[j].1.contains(MergedId(i as usize))
    }

    /// Every node both branches kept lands: some merged node is it or its
    /// image in a branch.
    pub open spec fn keeps_survivors(self, o: TreeView, f: MatchingView, g: MatchingView) -> bool {
        forall|x: NodeId|
            o.valid(x) && #[trigger] kept_by_both(f, g, x) ==> exists|j: int|
                0 <= j < self.nodes.len() && #[trigger] copy_of(self.nodes[j].0, f, g, x)
    }

    /// Every node comes from a survivor, a branch insertion, or a
    /// one-branch relabel.
    pub open spec fn origins_sound(self, o: TreeView, a: TreeView, b: TreeView, f: MatchingView, g: MatchingView) -> bool {
        forall|i: int| #![trigger self.nodes[i]] 0 <= i < self.nodes.len() ==> origin_sound(self.nodes[i].0, o, a, b, f, g)
    }

    pub open spec fn len(self) -> nat {
        self.nodes.len()
    }

    pub open spec fn origin(self, id: MergedId) -> Origin {
        self.nodes[id.0 as int].0
    }

    pub open spec fn children(self, id: MergedId) -> Seq<MergedId> {
        self.nodes[id.0 as int].1
    }

    /// The arena shape: the root is a node, and children are built (and
    /// numbered) before their parent.
    pub open spec fn wf(self) -> bool {
        &&& self.root.0 < self.nodes.len()
        &&& forall|i: int, k: int|
            #![trigger self.nodes[i].1[k]]
            0 <= i < self.nodes.len() && 0 <= k < self.nodes[i].1.len() ==> self.nodes[i].1[k].0 < i
    }

    /// Every origin names a node of the tree it points into.
    pub open spec fn origins_valid(self, o: TreeView, a: TreeView, b: TreeView) -> bool {
        forall|i: int|
            #![trigger self.nodes[i]]
            0 <= i < self.nodes.len() ==> {
                let (t, n) = origin_tree(self.nodes[i].0, o, a, b);
                t.valid(n)
            }
    }
}

/// The merge result: every node tagged with the tree it came from, so
/// synthesis can emit the input sources' bytes span by span.
#[derive(Debug)]
pub struct MergedTree {
    nodes: Vec<MergedNode>,
    root: MergedId,
}

spec fn view_merged_nodes(nodes: Seq<MergedNode>) -> Seq<(Origin, Seq<MergedId>)> {
    nodes.map_values(|n: MergedNode| (n.origin, n.children@))
}

impl View for MergedTree {
    type V = MergedView;

    closed spec fn view(&self) -> MergedView {
        MergedView { nodes: view_merged_nodes(self.nodes@), root: self.root }
    }
}

/// `shape` is the shape of the merged subtree at `id`, each origin
/// resolved against the tree it points into.
pub open spec fn merged_shape_of(
    shape: Shape,
    m: MergedView,
    o: TreeView,
    a: TreeView,
    b: TreeView,
    id: MergedId,
) -> bool
    decreases shape,
{
    let (t, n) = origin_tree(m.origin(id), o, a, b);
    &&& id.0 < m.len()
    &&& shape.kind_id == t.kind_id(n)
    &&& label_view(shape.label) == t.label(n)
    &&& shape.children@.len() == m.children(id).len()
    &&& forall|k: int|
        #![trigger shape.children@[k]]
        0 <= k < shape.children@.len() ==> merged_shape_of(shape.children@[k], m, o, a, b, m.children(id)[k])
}

impl MergedTree {
    /// The root node.
    pub fn root(&self) -> (r: MergedId)
        ensures
            r == self@.root,
    {
        self.root
    }

    /// The node's origin tag.
    pub fn origin(&self, id: MergedId) -> (r: Origin)
        requires
            id.0 < self@.len(),
        ensures
            r == self@.origin(id),
    {
        self.nodes[id.0].origin
    }

    /// The node's children, in merged order.
    pub fn children(&self, id: MergedId) -> (r: &[MergedId])
        requires
            id.0 < self@.len(),
        ensures
            r@ == self@.children(id),
    {
        self.nodes[id.0].children.as_slice()
    }

    /// The merged tree's shape, resolving each origin against the tree
    /// it points into.
    pub fn shape(&self, o: &Tree, a: &Tree, b: &Tree) -> (r: Shape)
        requires
            self@.wf(),
            self@.origins_valid(o@, a@, b@),
        ensures
            merged_shape_of(r, self@, o@, a@, b@, self@.root),
    {
        self.shape_of(o, a, b, self.root)
    }

    fn shape_of(&self, o: &Tree, a: &Tree, b: &Tree, id: MergedId) -> (r: Shape)
        requires
            self@.wf(),
            self@.origins_valid(o@, a@, b@),
            id.0 < self@.len(),
        ensures
            merged_shape_of(r, self@, o@, a@, b@, id),
        decreases id.0,
    {
        let node = &self.nodes[id.0];
        proof {
            assert(self@.nodes[id.0 as int] == (node.origin, node.children@));
        }
        let (tree, n) = match node.origin {
            Origin::O(n) => (o, n),
            Origin::A(n) => (a, n),
            Origin::B(n) => (b, n),
        };
        let mut children: Vec<Shape> = Vec::new();
        let mut k: usize = 0;
        while k < node.children.len()
            invariant
                self@.wf(),
                self@.origins_valid(o@, a@, b@),
                id.0 < self@.len(),
                node.children@ == self@.children(id),
                k <= node.children@.len(),
                children@.len() == k,
                forall|j: int|
                    0 <= j < k ==> merged_shape_of(#[trigger] children@[j], self@, o@, a@, b@, node.children@[j]),
            decreases node.children@.len() - k,
        {
            proof {
                assert(self@.nodes[id.0 as int].1[k as int] == node.children@[k as int]);
            }
            children.push(self.shape_of(o, a, b, node.children[k]));
            k = k + 1;
        }
        let label = match tree.label(n) {
            Some(text) => Some(String::from_str(text)),
            None => None,
        };
        Shape { kind_id: tree.kind_id(n), label, children }
    }
}

/// One merge conflict: the overlapping origin spans and the rule that
/// fired. Spans are `None` when the rule has no witness in that tree.
#[derive(Debug, Clone, PartialEq, Eq)]
pub struct Conflict {
    pub span_o: Option<Range<usize>>,
    pub span_a: Option<Range<usize>>,
    pub span_b: Option<Range<usize>>,
    pub rule: &'static str,
}

/// A merge either produces an origin-tagged tree or a set of conflicts.
#[derive(Debug)]
pub enum MergeOutcome {
    Merged(MergedTree),
    Conflicts(Vec<Conflict>),
}

/// A finished merge: the output text, or the conflicts that stopped it.
#[derive(Debug)]
pub enum MergeResult {
    Merged(String),
    Conflicts(Vec<Conflict>),
}

/// The subtree hashes of a node sequence.
fn hashes(tree: &Tree, nodes: &[NodeId]) -> (r: Vec<u64>)
    requires
        forall|k: int| 0 <= k < nodes@.len() ==> tree@.valid(#[trigger] nodes@[k]),
    ensures
        r@ == hashes_of(tree@, nodes@),
{
    let mut r: Vec<u64> = Vec::new();
    let mut k: usize = 0;
    while k < nodes.len()
        invariant
            k <= nodes@.len(),
            forall|t: int| 0 <= t < nodes@.len() ==> tree@.valid(#[trigger] nodes@[t]),
            r@ == hashes_of(tree@, nodes@.subrange(0, k as int)),
        decreases nodes@.len() - k,
    {
        r.push(tree.hash(nodes[k]));
        k = k + 1;
        proof {
            assert(r@ =~= hashes_of(tree@, nodes@.subrange(0, k as int)));
        }
    }
    proof {
        assert(nodes@.subrange(0, nodes@.len() as int) =~= nodes@);
    }
    r
}

fn same_u64s(x: &Vec<u64>, y: &Vec<u64>) -> (r: bool)
    ensures
        r == (x@ == y@),
{
    if x.len() != y.len() {
        return false;
    }
    let mut k: usize = 0;
    while k < x.len()
        invariant
            x@.len() == y@.len(),
            k <= x@.len(),
            forall|t: int| 0 <= t < k ==> x@[t] == y@[t],
        decreases x@.len() - k,
    {
        if x[k] != y[k] {
            return false;
        }
        k = k + 1;
    }
    proof {
        assert(x@ =~= y@);
    }
    true
}

/// Every node of every element group, and every pending node, comes
/// from the run.
proof fn lemma_group_members(t: TreeView, run: Seq<NodeId>, n: int)
    requires
        0 <= n <= run.len(),
    ensures
        forall|g: int, k: int|
            0 <= g < group_scan(t, run, n).0.len() && 0 <= k < group_scan(t, run, n).0[g].len()
                ==> run.contains(#[trigger] group_scan(t, run, n).0[g][k]),
        forall|k: int|
            0 <= k < group_scan(t, run, n).1.len() ==> run.contains(#[trigger] group_scan(t, run, n).1[k]),
    decreases n,
{
    if n > 0 {
        lemma_group_members(t, run, n - 1);
        let (groups, pending) = group_scan(t, run, n - 1);
        let x = run[n - 1];
        assert(run.contains(x));
        let (g2, p2) = group_scan(t, run, n);
        assert forall|g: int, k: int| 0 <= g < g2.len() && 0 <= k < g2[g].len() implies run.contains(#[trigger] g2[g][k]) by {
            if g < groups.len() {
                assert(g2[g] == groups[g]);
            } else {
                assert(g2[g] == pending.push(x));
                if k < pending.len() {
                    assert(g2[g][k] == pending[k]);
                }
            }
        }
        assert forall|k: int| 0 <= k < p2.len() implies run.contains(#[trigger] p2[k]) by {
            if k < pending.len() {
                assert(p2[k] == pending[k]);
            }
        }
    }
}

/// How many of the first `n` keys equal `key`.
pub open spec fn count_of<K>(keys: Seq<K>, key: K, n: int) -> nat
    decreases n,
{
    if n <= 0 {
        0
    } else {
        count_of(keys, key, n - 1) + if keys[n - 1] == key {
            1nat
        } else {
            0nat
        }
    }
}

/// B's group `g` survives dedupe: A's groups with its key are all
/// absorbed by B's earlier groups with that key.
pub open spec fn group_survives<K>(keys_a: Seq<K>, keys_b: Seq<K>, g: int) -> bool {
    count_of(keys_b, keys_b[g], g) >= count_of(keys_a, keys_b[g], keys_a.len() as int)
}

/// The nodes of B's surviving groups among the first `n`, in order.
pub open spec fn survivors<K>(keys_a: Seq<K>, keys_b: Seq<K>, groups_b: Seq<Seq<NodeId>>, n: int) -> Seq<NodeId>
    decreases n,
{
    if n <= 0 {
        seq![]
    } else {
        survivors(keys_a, keys_b, groups_b, n - 1) + if group_survives(keys_a, keys_b, n - 1) {
            groups_b[n - 1]
        } else {
            seq![]
        }
    }
}

/// How many of B's first `n` groups with `key` survive.
pub open spec fn surviving_count<K>(keys_a: Seq<K>, keys_b: Seq<K>, key: K, n: int) -> nat
    decreases n,
{
    if n <= 0 {
        0
    } else {
        surviving_count(keys_a, keys_b, key, n - 1) + if keys_b[n - 1] == key && group_survives(
            keys_a,
            keys_b,
            n - 1,
        ) {
            1nat
        } else {
            0nat
        }
    }
}

/// The hash sequence of each group.
pub open spec fn group_keys(t: TreeView, groups: Seq<Seq<NodeId>>) -> Seq<Seq<u64>> {
    groups.map_values(|g: Seq<NodeId>| hashes_of(t, g))
}

/// What [`dedupe_run`] keeps of B's run: B's element groups that A's
/// equal groups do not absorb, when both runs decompose into groups;
/// otherwise B's nodes that A's equal nodes do not absorb.
pub open spec fn deduped(a: TreeView, b: TreeView, run_a: Seq<NodeId>, run_b: Seq<NodeId>) -> Seq<NodeId> {
    let (groups_a, pending_a) = group_scan(a, run_a, run_a.len() as int);
    let (groups_b, pending_b) = group_scan(b, run_b, run_b.len() as int);
    if pending_a.len() == 0 && pending_b.len() == 0 {
        survivors(group_keys(a, groups_a), group_keys(b, groups_b), groups_b, groups_b.len() as int)
    } else {
        survivors(
            hashes_of(a, run_a),
            hashes_of(b, run_b),
            run_b.map_values(|n: NodeId| seq![n]),
            run_b.len() as int,
        )
    }
}

/// The views of a sequence of hash vectors.
pub open spec fn u64_views(s: Seq<Vec<u64>>) -> Seq<Seq<u64>> {
    s.map_values(|v: Vec<u64>| v@)
}

/// A's keys still unabsorbed after B's first `g` groups.
pub open spec fn remaining<K>(keys_a: Seq<K>, keys_b: Seq<K>, key: K, g: int) -> nat {
    let ca = count_of(keys_a, key, keys_a.len() as int);
    let cb = count_of(keys_b, key, g);
    if ca > cb {
        (ca - cb) as nat
    } else {
        0
    }
}

proof fn lemma_count_prefix<K>(s: Seq<K>, t: Seq<K>, key: K, n: int)
    requires
        0 <= n <= s.len(),
        n <= t.len(),
        forall|j: int| 0 <= j < n ==> s[j] == t[j],
    ensures
        count_of(s, key, n) == count_of(t, key, n),
    decreases n,
{
    if n > 0 {
        lemma_count_prefix(s, t, key, n - 1);
    }
}

proof fn lemma_count_update<K>(s: Seq<K>, i: int, v: K, key: K, n: int)
    requires
        0 <= i < n <= s.len(),
    ensures
        count_of(s.update(i, v), key, n) + (if s[i] == key { 1int } else { 0int }) == count_of(s, key, n) + (
        if v == key {
            1int
        } else {
            0int
        }),
    decreases n,
{
    if n - 1 > i {
        lemma_count_update(s, i, v, key, n - 1);
    } else {
        lemma_count_prefix(s.update(i, v), s, key, n - 1);
    }
}

/// No entry equals `key` exactly when the count is zero.
proof fn lemma_count_zero<K>(s: Seq<K>, key: K, n: int)
    requires
        0 <= n <= s.len(),
    ensures
        count_of(s, key, n) == 0 <==> forall|j: int| 0 <= j < n ==> s[j] != key,
    decreases n,
{
    if n > 0 {
        lemma_count_zero(s, key, n - 1);
    }
}

/// Removing entry `i` by swapping in the last one takes one occurrence
/// of that entry's key out of the count.
proof fn lemma_swap_remove_count<K>(s: Seq<K>, i: int, key: K)
    requires
        0 <= i < s.len(),
    ensures
        count_of(s.update(i, s.last()).drop_last(), key, s.len() - 1) + (if s[i] == key { 1int } else { 0int })
            == count_of(s, key, s.len() as int),
{
    let u = s.update(i, s.last());
    lemma_count_update(s, i, s.last(), key, s.len() as int);
    lemma_count_prefix(u.drop_last(), u, key, s.len() - 1);
    assert(u[s.len() - 1] == s.last());
}

/// One dedupe step keeps the count of every unabsorbed key: B's group
/// `g` absorbs one of A's entries exactly when one with its key is left.
proof fn lemma_dedupe_step<K>(av: Seq<K>, keys_a: Seq<K>, keys_b: Seq<K>, g: int, i: int)
    requires
        0 <= g < keys_b.len(),
        0 <= i <= av.len(),
        forall|key: K| #[trigger] count_of(av, key, av.len() as int) == remaining(keys_a, keys_b, key, g),
        i < av.len() ==> av[i] == keys_b[g],
        i == av.len() ==> forall|j: int| 0 <= j < av.len() ==> av[j] != keys_b[g],
    ensures
        (i < av.len()) == !group_survives(keys_a, keys_b, g),
        i < av.len() ==> forall|key: K|
            #[trigger] count_of(av.update(i, av.last()).drop_last(), key, av.len() - 1) == remaining(
                keys_a,
                keys_b,
                key,
                g + 1,
            ),
        i == av.len() ==> forall|key: K| #[trigger] count_of(av, key, av.len() as int) == remaining(keys_a, keys_b, key, g + 1),
{
    let kg = keys_b[g];
    lemma_count_zero(av, kg, av.len() as int);
    assert(count_of(av, kg, av.len() as int) == remaining(keys_a, keys_b, kg, g));
    if i < av.len() {
        assert forall|key: K|
            #[trigger] count_of(av.update(i, av.last()).drop_last(), key, av.len() - 1) == remaining(
                keys_a,
                keys_b,
                key,
                g + 1,
            ) by {
            lemma_swap_remove_count(av, i, key);
            assert(count_of(av, key, av.len() as int) == remaining(keys_a, keys_b, key, g));
        }
    } else {
        assert forall|key: K| #[trigger] count_of(av, key, av.len() as int) == remaining(keys_a, keys_b, key, g + 1) by {
            assert(count_of(av, key, av.len() as int) == remaining(keys_a, keys_b, key, g));
        }
    }
}

/// Of B's groups with one key, exactly as many survive as B has more of
/// that key than A: each A group absorbs at most one equal B group, so
/// multiplicities add up.
pub proof fn lemma_survivor_multiplicity<K>(keys_a: Seq<K>, keys_b: Seq<K>, key: K, n: int)
    requires
        0 <= n <= keys_b.len(),
    ensures
        surviving_count(keys_a, keys_b, key, n) == (if count_of(keys_b, key, n) > count_of(
            keys_a,
            key,
            keys_a.len() as int,
        ) {
            count_of(keys_b, key, n) - count_of(keys_a, key, keys_a.len() as int)
        } else {
            0
        }),
    decreases n,
{
    if n > 0 {
        lemma_survivor_multiplicity(keys_a, keys_b, key, n - 1);
    }
}

proof fn lemma_count_mono<K>(s: Seq<K>, key: K, m: int, n: int)
    requires
        0 <= m <= n,
    ensures
        count_of(s, key, m) <= count_of(s, key, n),
    decreases n - m,
{
    if m < n {
        lemma_count_mono(s, key, m, n - 1);
    }
}

/// Against an identical key sequence no group survives.
proof fn lemma_no_survivors<K>(keys: Seq<K>, groups: Seq<Seq<NodeId>>, n: int)
    requires
        0 <= n <= keys.len(),
    ensures
        survivors(keys, keys, groups, n) == Seq::<NodeId>::empty(),
    decreases n,
{
    if n > 0 {
        lemma_no_survivors(keys, groups, n - 1);
        lemma_count_mono(keys, keys[n - 1], n, keys.len() as int);
        assert(!group_survives(keys, keys, n - 1));
        assert(survivors(keys, keys, groups, n) =~= survivors(keys, keys, groups, n - 1));
    }
}

/// The same run inserted by both branches is the same edit made twice:
/// dedupe keeps none of B's copy.
pub proof fn lemma_identical_runs_dedupe_away(t: TreeView, run: Seq<NodeId>)
    ensures
        deduped(t, t, run, run) == Seq::<NodeId>::empty(),
{
    let (groups, pending) = group_scan(t, run, run.len() as int);
    if pending.len() == 0 {
        lemma_no_survivors(group_keys(t, groups), groups, groups.len() as int);
    } else {
        lemma_no_survivors(hashes_of(t, run), run.map_values(|n: NodeId| seq![n]), run.len() as int);
    }
}

/// Two runs, one in each branch, that agree node for node in subtree
/// hash, namedness and kind: the same insertion made in both branches.
pub open spec fn runs_alike(a: TreeView, b: TreeView, run_a: Seq<NodeId>, run_b: Seq<NodeId>) -> bool {
    &&& run_a.len() == run_b.len()
    &&& forall|k: int|
        0 <= k < run_a.len() ==> a.hash(#[trigger] run_a[k]) == b.hash(run_b[k]) && a.named(run_a[k]) == b.named(
            run_b[k],
        ) && a.node(run_a[k]).kind == b.node(run_b[k]).kind
}

/// Alike runs scan into groups with equal keys and pending nodes with
/// equal hashes.
proof fn lemma_scan_alike(a: TreeView, b: TreeView, run_a: Seq<NodeId>, run_b: Seq<NodeId>, n: int)
    requires
        runs_alike(a, b, run_a, run_b),
        0 <= n <= run_a.len(),
    ensures
        group_keys(a, group_scan(a, run_a, n).0) == group_keys(b, group_scan(b, run_b, n).0),
        hashes_of(a, group_scan(a, run_a, n).1) == hashes_of(b, group_scan(b, run_b, n).1),
    decreases n,
{
    if n > 0 {
        lemma_scan_alike(a, b, run_a, run_b, n - 1);
        let (ga, pa) = group_scan(a, run_a, n - 1);
        let (gb, pb) = group_scan(b, run_b, n - 1);
        let x = run_a[n - 1];
        let y = run_b[n - 1];
        assert(a.hash(x) == b.hash(y) && a.named(x) == b.named(y) && a.node(x).kind == b.node(y).kind);
        assert(hashes_of(a, pa.push(x)) =~= hashes_of(a, pa).push(a.hash(x)));
        assert(hashes_of(b, pb.push(y)) =~= hashes_of(b, pb).push(b.hash(y)));
        assert(group_keys(a, ga.push(pa.push(x))) =~= group_keys(a, ga).push(hashes_of(a, pa.push(x))));
        assert(group_keys(b, gb.push(pb.push(y))) =~= group_keys(b, gb).push(hashes_of(b, pb.push(y))));
        assert(hashes_of(a, Seq::<NodeId>::empty()) =~= hashes_of(b, Seq::<NodeId>::empty()));
    }
}

/// The same insertion made in both branches is one edit made twice:
/// dedupe keeps none of B's copy, wherever the two runs sit in their
/// trees.
pub proof fn lemma_alike_runs_dedupe_away(a: TreeView, b: TreeView, run_a: Seq<NodeId>, run_b: Seq<NodeId>)
    requires
        runs_alike(a, b, run_a, run_b),
    ensures
        deduped(a, b, run_a, run_b) == Seq::<NodeId>::empty(),
{
    lemma_scan_alike(a, b, run_a, run_b, run_a.len() as int);
    let (ga, pa) = group_scan(a, run_a, run_a.len() as int);
    let (gb, pb) = group_scan(b, run_b, run_b.len() as int);
    assert(hashes_of(a, pa).len() == pa.len() && hashes_of(b, pb).len() == pb.len());
    if pa.len() == 0 && pb.len() == 0 {
        lemma_no_survivors(group_keys(b, gb), gb, gb.len() as int);
    } else {
        assert(hashes_of(a, run_a) =~= hashes_of(b, run_b));
        lemma_no_survivors(hashes_of(b, run_b), run_b.map_values(|n: NodeId| seq![n]), run_b.len() as int);
    }
}

/// B's insertions in one slot that survive cross-branch dedupe against
/// A's. An equal run is the same edit made twice and lands zero of B's
/// nodes. Differing runs dedupe element-group-wise — each A group
/// absorbs at most one equal B group so multiplicities still add up,
/// and the groups B alone inserted survive; this is what merges two
/// branches' insertions under a commutative parent. Runs that do not
/// decompose into groups fall back to per-node dedupe (equal separators
/// must not absorb one another mid-run, but such runs only co-occur in
/// a slot when the anchor was deleted, where per-node matching is the
/// old, safe behavior).
pub fn dedupe_run(a: &Tree, b: &Tree, run_a: &[NodeId], run_b: &[NodeId]) -> (kept: Vec<NodeId>)
    requires
        forall|k: int| 0 <= k < run_a@.len() ==> a@.valid(#[trigger] run_a@[k]),
        forall|k: int| 0 <= k < run_b@.len() ==> b@.valid(#[trigger] run_b@[k]),
    ensures
        kept@ == deduped(a@, b@, run_a@, run_b@),
        forall|k: int| 0 <= k < kept@.len() ==> run_b@.contains(#[trigger] kept@[k]),
{
    match (element_groups(a, run_a), element_groups(b, run_b)) {
        (Some(groups_a), Some(groups_b)) => {
            proof {
                lemma_group_members(a@, run_a@, run_a@.len() as int);
                lemma_group_members(b@, run_b@, run_b@.len() as int);
            }
            let ghost ga = group_scan(a@, run_a@, run_a@.len() as int).0;
            let ghost gb = group_scan(b@, run_b@, run_b@.len() as int).0;
            let ghost keys_a = group_keys(a@, ga);
            let ghost keys_b = group_keys(b@, gb);
            let mut available: Vec<Vec<u64>> = Vec::new();
            let mut g: usize = 0;
            while g < groups_a.len()
                invariant
                    g <= groups_a@.len(),
                    forall|k: int| 0 <= k < run_a@.len() ==> a@.valid(#[trigger] run_a@[k]),
                    groups_a@.map_values(|v: Vec<NodeId>| v@) == ga,
                    ga == group_scan(a@, run_a@, run_a@.len() as int).0,
                    keys_a == group_keys(a@, ga),
                    forall|h: int, k: int|
                        0 <= h < ga.len() && 0 <= k < ga[h].len() ==> run_a@.contains(#[trigger] ga[h][k]),
                    u64_views(available@) == keys_a.subrange(0, g as int),
                decreases groups_a@.len() - g,
            {
                proof {
                    assert(groups_a@.map_values(|v: Vec<NodeId>| v@)[g as int] == groups_a@[g as int]@);
                    assert forall|k: int| 0 <= k < groups_a@[g as int]@.len() implies a@.valid(#[trigger] groups_a@[g as int]@[k]) by {
                        assert(run_a@.contains(ga[g as int][k]));
                    }
                }
                let key = hashes(a, groups_a[g].as_slice());
                proof {
                    assert(groups_a@.map_values(|v: Vec<NodeId>| v@).len() == groups_a@.len());
                    assert(ga[g as int] == groups_a@[g as int]@);
                    assert(keys_a.len() == ga.len());
                    assert(keys_a[g as int] == key@);
                }
                let ghost before = u64_views(available@);
                available.push(key);
                proof {
                    assert(u64_views(available@) =~= before.push(key@));
                    assert(keys_a.subrange(0, g + 1) =~= keys_a.subrange(0, g as int).push(keys_a[g as int]));
                }
                g = g + 1;
            }
            proof {
                assert(keys_a.subrange(0, keys_a.len() as int) =~= keys_a);
                assert forall|key: Seq<u64>|
                    #[trigger] count_of(u64_views(available@), key, available@.len() as int)
                        == remaining(keys_a, keys_b, key, 0) by {
                }
            }
            let mut kept: Vec<NodeId> = Vec::new();
            let mut g: usize = 0;
            while g < groups_b.len()
                invariant
                    g <= groups_b@.len(),
                    forall|k: int| 0 <= k < run_b@.len() ==> b@.valid(#[trigger] run_b@[k]),
                    groups_b@.map_values(|v: Vec<NodeId>| v@) == gb,
                    gb == group_scan(b@, run_b@, run_b@.len() as int).0,
                    keys_b == group_keys(b@, gb),
                    forall|h: int, k: int|
                        0 <= h < gb.len() && 0 <= k < gb[h].len() ==> run_b@.contains(#[trigger] gb[h][k]),
                    forall|k: int| 0 <= k < kept@.len() ==> run_b@.contains(#[trigger] kept@[k]),
                    kept@ == survivors(keys_a, keys_b, gb, g as int),
                    forall|key: Seq<u64>|
                        #[trigger] count_of(u64_views(available@), key, available@.len() as int)
                            == remaining(keys_a, keys_b, key, g as int),
                decreases groups_b@.len() - g,
            {
                let group = &groups_b[g];
                proof {
                    assert(groups_b@.map_values(|v: Vec<NodeId>| v@)[g as int] == group@);
                    assert forall|k: int| 0 <= k < group@.len() implies run_b@.contains(#[trigger] group@[k]) by {
                        assert(run_b@.contains(gb[g as int][k]));
                    }
                }
                let group_hashes = hashes(b, group.as_slice());
                let ghost av = u64_views(available@);
                proof {
                    assert(group_hashes@ == keys_b[g as int]);
                }
                let mut i: usize = 0;
                while i < available.len()
                    invariant
                        i <= available@.len(),
                        av == u64_views(available@),
                        forall|j: int| 0 <= j < i ==> av[j] != group_hashes@,
                    ensures
                        i <= available@.len(),
                        i < available@.len() ==> av[i as int] == group_hashes@,
                        i == available@.len() ==> forall|j: int| 0 <= j < available@.len() ==> av[j] != group_hashes@,
                    decreases available@.len() - i,
                {
                    if same_u64s(&available[i], &group_hashes) {
                        break;
                    }
                    i = i + 1;
                }
                proof {
                    lemma_dedupe_step(av, keys_a, keys_b, g as int, i as int);
                }
                if i < available.len() {
                    available.swap_remove(i);
                    proof {
                        assert(u64_views(available@) =~= av.update(i as int, av.last()).drop_last());
                        assert(survivors(keys_a, keys_b, gb, g + 1) =~= survivors(keys_a, keys_b, gb, g as int));
                    }
                } else {
                    let ghost before = kept@;
                    let mut k: usize = 0;
                    while k < group.len()
                        invariant
                            k <= group@.len(),
                            forall|t: int| 0 <= t < group@.len() ==> run_b@.contains(#[trigger] group@[t]),
                            forall|t: int| 0 <= t < kept@.len() ==> run_b@.contains(#[trigger] kept@[t]),
                            kept@ == before + group@.subrange(0, k as int),
                        decreases group@.len() - k,
                    {
                        kept.push(group[k]);
                        k = k + 1;
                        proof {
                            assert(kept@ =~= before + group@.subrange(0, k as int));
                        }
                    }
                    proof {
                        assert(group@.subrange(0, group@.len() as int) =~= group@);
                        assert(survivors(keys_a, keys_b, gb, g + 1) =~= before + gb[g as int]);
                    }
                }
                g = g + 1;
            }
            proof {
                assert(deduped(a@, b@, run_a@, run_b@) == survivors(keys_a, keys_b, gb, gb.len() as int));
            }
            kept
        },
        _ => {
            let ghost keys_a = hashes_of(a@, run_a@);
            let ghost keys_b = hashes_of(b@, run_b@);
            let ghost singles = run_b@.map_values(|n: NodeId| seq![n]);
            let mut available = hashes(a, run_a);
            let mut kept: Vec<NodeId> = Vec::new();
            proof {
                assert forall|key: u64| #[trigger] count_of(available@, key, available@.len() as int) == remaining(
                    keys_a,
                    keys_b,
                    key,
                    0,
                ) by {
                }
            }
            let mut k: usize = 0;
            while k < run_b.len()
                invariant
                    k <= run_b@.len(),
                    forall|t: int| 0 <= t < run_b@.len() ==> b@.valid(#[trigger] run_b@[t]),
                    forall|t: int| 0 <= t < kept@.len() ==> run_b@.contains(#[trigger] kept@[t]),
                    keys_a == hashes_of(a@, run_a@),
                    keys_b == hashes_of(b@, run_b@),
                    singles == run_b@.map_values(|n: NodeId| seq![n]),
                    kept@ == survivors(keys_a, keys_b, singles, k as int),
                    forall|key: u64| #[trigger] count_of(available@, key, available@.len() as int) == remaining(
                        keys_a,
                        keys_b,
                        key,
                        k as int,
                    ),
                decreases run_b@.len() - k,
            {
                let node = run_b[k];
                let hash = b.hash(node);
                let ghost av = available@;
                let mut i: usize = 0;
                while i < available.len()
                    invariant
                        i <= available@.len(),
                        av == available@,
                        forall|j: int| 0 <= j < i ==> av[j] != hash,
                    ensures
                        i <= available@.len(),
                        i < available@.len() ==> available@[i as int] == hash,
                        i == available@.len() ==> forall|j: int| 0 <= j < available@.len() ==> av[j] != hash,
                    decreases available@.len() - i,
                {
                    if available[i] == hash {
                        break;
                    }
                    i = i + 1;
                }
                proof {
                    assert(keys_b[k as int] == hash);
                    lemma_dedupe_step(av, keys_a, keys_b, k as int, i as int);
                }
                if i < available.len() {
                    available.swap_remove(i);
                    proof {
                        assert(survivors(keys_a, keys_b, singles, k + 1) =~= survivors(keys_a, keys_b, singles, k as int));
                    }
                } else {
                    proof {
                        assert(run_b@[k as int] == node);
                        assert(singles[k as int] == seq![node]);
                    }
                    kept.push(node);
                    proof {
                        assert(survivors(keys_a, keys_b, singles, k + 1) =~= kept@);
                    }
                }
                k = k + 1;
            }
            proof {
                assert(deduped(a@, b@, run_a@, run_b@) == survivors(keys_a, keys_b, singles, run_b@.len() as int));
            }
            kept
        },
    }
}

/// Which branch a graft comes from.
#[derive(Clone, Copy, PartialEq, Eq, Structural)]
enum Branch {
    A,
    B,
}

/// The origin of a node that `branch` inserted.
spec fn branch_origin(branch: Branch, n: NodeId) -> Origin {
    match branch {
        Branch::A => Origin::A(n),
        Branch::B => Origin::B(n),
    }
}

/// How many entries are still `false`.
spec fn count_false(s: Seq<bool>) -> nat
    decreases s.len(),
{
    if s.len() == 0 {
        0
    } else {
        count_false(s.drop_last()) + if s.last() {
            0nat
        } else {
            1nat
        }
    }
}

proof fn lemma_count_false_set(s: Seq<bool>, i: int)
    requires
        0 <= i < s.len(),
    ensures
        count_false(s.update(i, true)) + (if s[i] { 0nat } else { 1nat }) == count_false(s),
    decreases s.len(),
{
    if i < s.len() - 1 {
        lemma_count_false_set(s.drop_last(), i);
        assert(s.update(i, true).drop_last() =~= s.drop_last().update(i, true));
    } else {
        assert(s.update(i, true).drop_last() =~= s.drop_last());
    }
}

/// A partly built merge arena: children come before their parents and
/// every origin names a node of its tree.
pub open spec fn arena_ok(nodes: Seq<(Origin, Seq<MergedId>)>, o: TreeView, a: TreeView, b: TreeView) -> bool {
    &&& forall|i: int, k: int|
        #![trigger nodes[i].1[k]]
        0 <= i < nodes.len() && 0 <= k < nodes[i].1.len() ==> nodes[i].1[k].0 < i
    &&& forall|i: int|
        #![trigger nodes[i]]
        0 <= i < nodes.len() ==> {
            let (t, n) = origin_tree(nodes[i].0, o, a, b);
            t.valid(n)
        }
}

/// The origin names O's node `x` or its image in a branch.
pub open spec fn copy_of(origin: Origin, f: MatchingView, g: MatchingView, x: NodeId) -> bool {
    ||| origin == Origin::O(x)
    ||| (f.image(x) matches Some(y) && origin == Origin::A(y))
    ||| (g.image(x) matches Some(y) && origin == Origin::B(y))
}

/// Both branches kept `x`.
pub open spec fn kept_by_both(f: MatchingView, g: MatchingView, x: NodeId) -> bool {
    f.image(x) is Some && g.image(x) is Some
}

/// `s` is a survivor below `x` with no survivor strictly between them:
/// `x`'s children, with deleted interiors spliced through.
pub open spec fn on_frontier(o: TreeView, f: MatchingView, g: MatchingView, x: NodeId, s: NodeId) -> bool {
    &&& anc_in(o.nodes, x, s)
    &&& kept_by_both(f, g, s)
    &&& forall|z: NodeId| #![trigger anc_in(o.nodes, x, z), anc_in(o.nodes, z, s)]
        anc_in(o.nodes, x, z) && anc_in(o.nodes, z, s) ==> !kept_by_both(f, g, z)
}

/// Every node below the root has a nearest surviving proper ancestor,
/// given that the root survives.
proof fn lemma_nearest_survivor(o: TreeView, f: MatchingView, g: MatchingView, n: NodeId)
    requires
        o.arena_wf(),
        0 < n.0 < o.len(),
        kept_by_both(f, g, NodeId(0)),
    ensures
        exists|x: NodeId|
            #![trigger kept_by_both(f, g, x)]
            kept_by_both(f, g, x) && anc_in(o.nodes, x, n) && forall|z: NodeId|
                #![trigger anc_in(o.nodes, x, z), anc_in(o.nodes, z, n)]
                anc_in(o.nodes, x, z) && anc_in(o.nodes, z, n) ==> !kept_by_both(f, g, z),
    decreases n.0,
{
    let p = o.nodes[n.0 as int].parent.unwrap();
    assert(p.0 < n.0);
    assert(anc_in(o.nodes, p, n));
    if kept_by_both(f, g, p) {
        assert forall|z: NodeId| anc_in(o.nodes, p, z) && anc_in(o.nodes, z, n) implies !kept_by_both(f, g, z) by {
            crate::embed::lemma_anc_before(o, p, z);
            crate::embed::lemma_anc_before(o, z, n);
            if z != p {
                assert(anc_in(o.nodes, z, p));
                crate::embed::lemma_anc_before(o, z, p);
            }
        }
    } else {
        assert(p.0 > 0);
        lemma_nearest_survivor(o, f, g, p);
        let x = choose|x: NodeId|
            #![trigger kept_by_both(f, g, x)]
            kept_by_both(f, g, x) && anc_in(o.nodes, x, p) && forall|z: NodeId|
                #![trigger anc_in(o.nodes, x, z), anc_in(o.nodes, z, p)]
                anc_in(o.nodes, x, z) && anc_in(o.nodes, z, p) ==> !kept_by_both(f, g, z);
        crate::tree::lemma_anc_trans(o, x, p, n);
        assert forall|z: NodeId|
            #![trigger anc_in(o.nodes, x, z), anc_in(o.nodes, z, n)]
            anc_in(o.nodes, x, z) && anc_in(o.nodes, z, n) implies !kept_by_both(f, g, z) by {
            if z != p {
                assert(anc_in(o.nodes, z, p));
            }
        }
        assert(kept_by_both(f, g, x));
    }
}

/// A finished survivor stays finished as the builder grows.
proof fn lemma_finished_grows(b1: Builder, b2: Builder, y: NodeId)
    requires
        b1.inv(),
        b2.inv(),
        b2.grows(&b1),
        b1.finished(y),
    ensures
        b2.finished(y),
{
    assert forall|s: NodeId| #[trigger] on_frontier(b2.o@, b2.f@, b2.g@, y, s) implies b2.placed@[s.0 as int] by {
        assert(on_frontier(b1.o@, b1.f@, b1.g@, y, s));
        assert(b1.placed@[s.0 as int]);
        crate::embed::lemma_anc_before(b1.o@, y, s);
    }
    let j = choose|j: int|
        0 <= j < b1.nodes@.len() && b1.survivor_origin(y, #[trigger] view_merged_nodes(b1.nodes@)[j].0);
    assert(view_merged_nodes(b2.nodes@)[j] == view_merged_nodes(b1.nodes@)[j]);
    assert(b2.survivor_origin(y, view_merged_nodes(b2.nodes@)[j].0));
}

/// A linked node stays linked as the builder grows.
proof fn lemma_linked_grows(b1: Builder, b2: Builder, i: int)
    requires
        0 <= i,
        b2.grows(&b1),
        b1.linked(i),
    ensures
        b2.linked(i),
{
    let j = choose|j: int|
        i < j < b1.nodes@.len() && #[trigger] view_merged_nodes(b1.nodes@)[j].1.contains(MergedId(i as usize));
    assert(view_merged_nodes(b2.nodes@)[j] == view_merged_nodes(b1.nodes@)[j]);
}

/// After a step whose fresh nodes are linked but for `id`, and `id`
/// joins the pending children, every fresh node since `start` is linked
/// or pending.
proof fn lemma_pending_moves(
    start: Builder,
    mid: Builder,
    after: Builder,
    kids_before: Seq<MergedId>,
    kids_after: Seq<MergedId>,
    id: MergedId,
)
    requires
        after.grows(&mid),
        mid.nodes@.len() >= start.nodes@.len(),
        kids_after == kids_before.push(id),
        forall|i: int|
            start.nodes@.len() <= i < mid.nodes@.len() && !mid.linked(i) ==> kids_before.contains(MergedId(i as usize)),
        forall|i: int| mid.nodes@.len() <= i < after.nodes@.len() && i != id.0 ==> after.linked(i),
    ensures
        forall|i: int|
            start.nodes@.len() <= i < after.nodes@.len() && !after.linked(i) ==> kids_after.contains(
                MergedId(i as usize),
            ),
{
    assert forall|i: int|
        start.nodes@.len() <= i < after.nodes@.len() && !after.linked(i) implies kids_after.contains(
        MergedId(i as usize),
    ) by {
        if i < mid.nodes@.len() {
            if mid.linked(i) {
                lemma_linked_grows(mid, after, i);
            }
            assert(!mid.linked(i));
            let t = choose|t: int| 0 <= t < kids_before.len() && kids_before[t] == MergedId(i as usize);
            assert(kids_after[t] == kids_before[t]);
        } else {
            assert(kids_after[kids_after.len() - 1] == id);
        }
    }
}

/// One slot of materialization: the slot's grafts join the children
/// (with the survivor built there), so every fresh unlinked node stays
/// pending — in the children, a later slot's grafts, or a tail.
proof fn lemma_pending_step(
    st: Builder,
    after: Builder,
    ch0: Seq<MergedId>,
    ch1: Seq<MergedId>,
    ch2: Seq<MergedId>,
    ga: Seq<Vec<MergedId>>,
    gb: Seq<Vec<MergedId>>,
    ta: Seq<MergedId>,
    tb: Seq<MergedId>,
    i: int,
    from: int,
)
    requires
        after.grows(&st),
        0 <= from <= st.nodes@.len(),
        0 <= i < ga.len(),
        i < gb.len(),
        ch1 == ch0 + ga[i]@ + gb[i]@,
        ch1.len() <= ch2.len(),
        forall|k: int| 0 <= k < ch1.len() ==> ch2[k] == ch1[k],
        forall|m: int|
            st.nodes@.len() <= m < after.nodes@.len() && !after.linked(m) ==> ch2.contains(MergedId(m as usize)),
        forall|m: int|
            from <= m < st.nodes@.len() && !st.linked(m) ==> ch0.contains(MergedId(m as usize)) || (exists|t: int|
                i <= t < ga.len() && (#[trigger] ga[t])@.contains(MergedId(m as usize))) || (exists|t: int|
                i <= t < gb.len() && (#[trigger] gb[t])@.contains(MergedId(m as usize))) || ta.contains(
                MergedId(m as usize),
            ) || tb.contains(MergedId(m as usize)),
    ensures
        forall|m: int|
            from <= m < after.nodes@.len() && !after.linked(m) ==> ch2.contains(MergedId(m as usize)) || (exists|t: int|
                i + 1 <= t < ga.len() && (#[trigger] ga[t])@.contains(MergedId(m as usize))) || (exists|t: int|
                i + 1 <= t < gb.len() && (#[trigger] gb[t])@.contains(MergedId(m as usize))) || ta.contains(
                MergedId(m as usize),
            ) || tb.contains(MergedId(m as usize)),
{
    assert forall|m: int| from <= m < after.nodes@.len() && !after.linked(m) implies ch2.contains(MergedId(m as usize))
        || (exists|t: int| i + 1 <= t < ga.len() && (#[trigger] ga[t])@.contains(MergedId(m as usize))) || (exists|t: int|
        i + 1 <= t < gb.len() && (#[trigger] gb[t])@.contains(MergedId(m as usize))) || ta.contains(MergedId(m as usize))
        || tb.contains(MergedId(m as usize)) by {
        let id = MergedId(m as usize);
        if m < st.nodes@.len() {
            if st.linked(m) {
                lemma_linked_grows(st, after, m);
            }
            if ch0.contains(id) {
                let k = choose|k: int| 0 <= k < ch0.len() && ch0[k] == id;
                assert(ch1[k] == id);
                assert(ch2[k] == id);
            } else if exists|t: int| i <= t < ga.len() && (#[trigger] ga[t])@.contains(id) {
                let t = choose|t: int| i <= t < ga.len() && (#[trigger] ga[t])@.contains(id);
                if t == i {
                    let k = choose|k: int| 0 <= k < ga[i]@.len() && ga[i]@[k] == id;
                    assert(ch1[ch0.len() + k] == id);
                    assert(ch2[ch0.len() + k] == id);
                }
            } else if exists|t: int| i <= t < gb.len() && (#[trigger] gb[t])@.contains(id) {
                let t = choose|t: int| i <= t < gb.len() && (#[trigger] gb[t])@.contains(id);
                if t == i {
                    let k = choose|k: int| 0 <= k < gb[i]@.len() && gb[i]@[k] == id;
                    assert(ch1[ch0.len() + ga[i]@.len() + k] == id);
                    assert(ch2[ch0.len() + ga[i]@.len() + k] == id);
                }
            }
        }
    }
}

/// Pushing a node whose children are the pending fresh nodes links them
/// all; only the pushed node itself is left unlinked.
proof fn lemma_pending_attached(start: Builder, before: Builder, after: Builder, kids: Seq<MergedId>, r: MergedId)
    requires
        after.grows(&before),
        before.nodes@.len() >= start.nodes@.len(),
        r.0 == before.nodes@.len(),
        after.nodes@.len() == before.nodes@.len() + 1,
        view_merged_nodes(after.nodes@)[r.0 as int].1 == kids,
        forall|i: int|
            start.nodes@.len() <= i < before.nodes@.len() && !before.linked(i) ==> kids.contains(MergedId(i as usize)),
    ensures
        forall|i: int| start.nodes@.len() <= i < after.nodes@.len() && i != r.0 ==> after.linked(i),
{
    assert forall|i: int| start.nodes@.len() <= i < after.nodes@.len() && i != r.0 implies after.linked(i) by {
        if before.linked(i) {
            lemma_linked_grows(before, after, i);
        } else if i < before.nodes@.len() {
            assert(kids.contains(MergedId(i as usize)));
            assert(view_merged_nodes(after.nodes@)[r.0 as int].1.contains(MergedId(i as usize)));
        }
    }
}

/// Growth composes along a run of builder steps.
proof fn lemma_grows_trans(a: Builder, b: Builder, c: Builder)
    requires
        a.inv(),
        b.inv(),
        b.grows(&a),
        c.grows(&b),
    ensures
        c.grows(&a),
{
    assert forall|i: int| 0 <= i < a.placed@.len() && #[trigger] a.placed@[i] implies c.placed@[i] by {
        assert(b.placed@[i]);
    }
    assert forall|j: int| 0 <= j < a.nodes@.len() implies #[trigger] view_merged_nodes(c.nodes@)[j]
        == view_merged_nodes(a.nodes@)[j] by {
        assert(view_merged_nodes(b.nodes@)[j] == view_merged_nodes(a.nodes@)[j]);
    }
}

/// Finishing composes along a run of builder steps.
proof fn lemma_finishes_chain(a: Builder, b: Builder, c: Builder, except: int)
    requires
        a.inv(),
        b.inv(),
        c.inv(),
        b.grows(&a),
        c.grows(&b),
        b.finishes(&a, except),
        c.finishes(&b, except),
    ensures
        c.grows(&a),
        c.finishes(&a, except),
{
    lemma_grows_trans(a, b, c);
    assert forall|i: int|
        #![trigger c.placed@[i]]
        0 <= i < c.placed@.len() && i != except && c.placed@[i] && !a.placed@[i] implies c.finished(
        NodeId(i as usize),
    ) by {
        if b.placed@[i] {
            lemma_finished_grows(b, c, NodeId(i as usize));
        }
    }
}

/// With the root placed and every placed survivor finished, every
/// survivor is placed: it is on the frontier of its nearest surviving
/// ancestor, which is placed before it.
proof fn lemma_survivors_placed(b: Builder, n: NodeId)
    requires
        b.inv(),
        b.o@.valid(n),
        kept_by_both(b.f@, b.g@, n),
        kept_by_both(b.f@, b.g@, NodeId(0)),
        b.placed@[0],
        forall|i: int|
            #![trigger b.placed@[i]]
            0 <= i < b.placed@.len() && b.placed@[i] ==> b.finished(NodeId(i as usize)),
    ensures
        b.placed@[n.0 as int],
    decreases n.0,
{
    if n.0 > 0 {
        lemma_nearest_survivor(b.o@, b.f@, b.g@, n);
        let x = choose|x: NodeId|
            #![trigger kept_by_both(b.f@, b.g@, x)]
            kept_by_both(b.f@, b.g@, x) && anc_in(b.o@.nodes, x, n) && forall|z: NodeId|
                #![trigger anc_in(b.o@.nodes, x, z), anc_in(b.o@.nodes, z, n)]
                anc_in(b.o@.nodes, x, z) && anc_in(b.o@.nodes, z, n) ==> !kept_by_both(b.f@, b.g@, z);
        crate::embed::lemma_anc_before(b.o@, x, n);
        lemma_survivors_placed(b, x);
        assert(b.finished(x));
        assert(on_frontier(b.o@, b.f@, b.g@, x, n));
    }
}

struct Builder<'t> {
    o: &'t Tree,
    a: &'t Tree,
    b: &'t Tree,
    f: &'t Matching,
    g: &'t Matching,
    nodes: Vec<MergedNode>,
    /// Survivors already materialized at their O position.
    placed: Vec<bool>,
    /// Survivors pulled inside a graft; their O position skips them.
    consumed: Vec<bool>,
}

impl Builder<'_> {
    spec fn inv(&self) -> bool {
        &&& self.f@.wf()
        &&& self.f@.fits(self.o@, self.a@)
        &&& self.g@.wf()
        &&& self.g@.fits(self.o@, self.b@)
        &&& self.o@.wf()
        &&& self.a@.wf()
        &&& self.b@.wf()
        &&& self.placed@.len() == self.o@.len()
        &&& self.consumed@.len() == self.o@.len()
        &&& arena_ok(view_merged_nodes(self.nodes@), self.o@, self.a@, self.b@)
        &&& (MergedView { nodes: view_merged_nodes(self.nodes@), root: MergedId(0) }).origins_sound(
            self.o@,
            self.a@,
            self.b@,
            self.f@,
            self.g@,
        )
    }

    /// The inputs a step leaves alone.
    spec fn same_inputs(&self, other: &Self) -> bool {
        &&& self.o == other.o
        &&& self.a == other.a
        &&& self.b == other.b
        &&& self.f == other.f
        &&& self.g == other.g
    }

    /// A step only adds nodes and marks survivors.
    spec fn grows(&self, before: &Self) -> bool {
        &&& self.same_inputs(before)
        &&& self.nodes@.len() >= before.nodes@.len()
        &&& forall|j: int|
            0 <= j < before.nodes@.len() ==> #[trigger] view_merged_nodes(self.nodes@)[j] == view_merged_nodes(
                before.nodes@,
            )[j]
        &&& count_false(self.placed@) <= count_false(before.placed@)
        &&& forall|i: int| 0 <= i < before.placed@.len() && #[trigger] before.placed@[i] ==> self.placed@[i]
    }

    /// Every consumed survivor is placed (but for `except`, whose
    /// materialization is about to start).
    spec fn consumed_placed(&self, except: int) -> bool {
        forall|i: int|
            0 <= i < self.consumed@.len() && i != except && #[trigger] self.consumed@[i] ==> self.placed@[i]
    }

    /// A materialized survivor: its surviving frontier is placed and its
    /// node is in the arena.
    spec fn finished(&self, y: NodeId) -> bool {
        &&& forall|s: NodeId| #[trigger] on_frontier(self.o@, self.f@, self.g@, y, s) ==> self.placed@[s.0 as int]
        &&& exists|j: int|
            0 <= j < self.nodes@.len() && self.survivor_origin(y, #[trigger] view_merged_nodes(self.nodes@)[j].0)
    }

    /// Node `i` is a child of some later node.
    spec fn linked(&self, i: int) -> bool {
        exists|j: int|
            i < j < self.nodes@.len() && #[trigger] view_merged_nodes(self.nodes@)[j].1.contains(MergedId(i as usize))
    }

    /// Every survivor placed since `before` (but for `except`) is
    /// finished.
    spec fn finishes(&self, before: &Self, except: int) -> bool {
        forall|i: int|
            #![trigger self.placed@[i]]
            0 <= i < self.placed@.len() && i != except && self.placed@[i] && !before.placed@[i] ==> self.finished(
                NodeId(i as usize),
            )
    }

    /// The origin a survivor takes: the relabeling branch's node, or the
    /// O node itself.
    spec fn survivor_origin(&self, x: NodeId, origin: Origin) -> bool {
        copy_of(origin, self.f@, self.g@, x)
    }

    spec fn branch_len(&self, branch: Branch) -> nat {
        match branch {
            Branch::A => self.a@.len(),
            Branch::B => self.b@.len(),
        }
    }

    fn survives(&self, node: NodeId) -> (r: bool)
        requires
            self.inv(),
            self.o@.valid(node),
        ensures
            r == (self.f@.image(node) is Some && self.g@.image(node) is Some),
    {
        self.f.image(node).is_some() && self.g.image(node).is_some()
    }

    fn push(&mut self, node: MergedNode) -> (id: MergedId)
        requires
            old(self).inv(),
            forall|k: int| 0 <= k < node.children@.len() ==> (#[trigger] node.children@[k]).0 < old(self).nodes@.len(),
            ({
                let (t, n) = origin_tree(node.origin, old(self).o@, old(self).a@, old(self).b@);
                t.valid(n)
            }),
            origin_sound(node.origin, old(self).o@, old(self).a@, old(self).b@, old(self).f@, old(self).g@),
        ensures
            final(self).inv(),
            final(self).grows(old(self)),
            final(self).placed@ == old(self).placed@,
            final(self).consumed@ == old(self).consumed@,
            id.0 == old(self).nodes@.len(),
            final(self).nodes@.len() == old(self).nodes@.len() + 1,
            view_merged_nodes(final(self).nodes@)[id.0 as int] == (node.origin, node.children@),
    {
        let id = MergedId(self.nodes.len());
        let ghost before = view_merged_nodes(self.nodes@);
        let ghost entry = (node.origin, node.children@);
        self.nodes.push(node);
        proof {
            assert(view_merged_nodes(self.nodes@) =~= before.push(entry));
            let after = MergedView { nodes: view_merged_nodes(self.nodes@), root: MergedId(0) };
            let prior = MergedView { nodes: before, root: MergedId(0) };
            assert forall|i: int| #![trigger after.nodes[i]] 0 <= i < after.nodes.len() implies origin_sound(
                after.nodes[i].0,
                self.o@,
                self.a@,
                self.b@,
                self.f@,
                self.g@,
            ) by {
                if i < before.len() {
                    assert(after.nodes[i] == prior.nodes[i]);
                }
            }
        }
        id
    }

    /// The surviving frontier of x's children: survivors stay, deleted
    /// interiors are spliced through to their surviving descendants.
    fn splice(&self, x: NodeId) -> (out: Vec<NodeId>)
        requires
            self.inv(),
            self.o@.valid(x),
        ensures
            forall|k: int|
                0 <= k < out@.len() ==> self.o@.valid(#[trigger] out@[k]) && x.0 < out@[k].0
                    && self.f@.image(out@[k]) is Some && self.g@.image(out@[k]) is Some,
            forall|s: NodeId| #[trigger] on_frontier(self.o@, self.f@, self.g@, x, s) ==> out@.contains(s),
        decreases self.o@.len() - x.0,
    {
        proof {
            crate::diff::lemma_children(self.o@, x);
        }
        let kids = self.o.children(x);
        let mut out: Vec<NodeId> = Vec::new();
        let mut k: usize = 0;
        while k < kids.len()
            invariant
                self.inv(),
                self.o@.valid(x),
                kids@ == self.o@.children(x),
                forall|j: int| 0 <= j < kids@.len() ==> x.0 < (#[trigger] kids@[j]).0 < self.o@.len(),
                k <= kids@.len(),
                forall|j: int|
                    0 <= j < out@.len() ==> self.o@.valid(#[trigger] out@[j]) && x.0 < out@[j].0
                        && self.f@.image(out@[j]) is Some && self.g@.image(out@[j]) is Some,
                forall|s: NodeId, j: int|
                    0 <= j < k && #[trigger] on_frontier(self.o@, self.f@, self.g@, x, s) && anc_or_self(
                        self.o@.nodes,
                        #[trigger] kids@[j],
                        s,
                    ) ==> out@.contains(s),
            decreases kids@.len() - k,
        {
            let c = kids[k];
            let ghost before_out = out@;
            proof {
                crate::embed::lemma_child_parent(self.o@, x, k as int);
            }
            if self.survives(c) {
                out.push(c);
                proof {
                    assert forall|s: NodeId, j: int|
                        0 <= j < k + 1 && #[trigger] on_frontier(self.o@, self.f@, self.g@, x, s) && anc_or_self(
                            self.o@.nodes,
                            #[trigger] kids@[j],
                            s,
                        ) implies out@.contains(s) by {
                        if j < k {
                            assert(before_out.contains(s));
                            let t = choose|t: int| 0 <= t < before_out.len() && before_out[t] == s;
                            assert(out@[t] == s);
                        } else if c != s {
                            assert(anc_in(self.o@.nodes, x, c) && anc_in(self.o@.nodes, c, s));
                        } else {
                            assert(out@[out@.len() - 1] == s);
                        }
                    }
                }
            } else {
                let deeper = self.splice(c);
                let mut t: usize = 0;
                while t < deeper.len()
                    invariant
                        t <= deeper@.len(),
                        forall|j: int|
                            0 <= j < deeper@.len() ==> self.o@.valid(#[trigger] deeper@[j]) && c.0 < deeper@[j].0
                                && self.f@.image(deeper@[j]) is Some && self.g@.image(deeper@[j]) is Some,
                        x.0 < c.0,
                        forall|j: int|
                            0 <= j < out@.len() ==> self.o@.valid(#[trigger] out@[j]) && x.0 < out@[j].0
                                && self.f@.image(out@[j]) is Some && self.g@.image(out@[j]) is Some,
                        out@ == before_out + deeper@.subrange(0, t as int),
                    decreases deeper@.len() - t,
                {
                    out.push(deeper[t]);
                    t = t + 1;
                    proof {
                        assert(out@ =~= before_out + deeper@.subrange(0, t as int));
                    }
                }
                proof {
                    assert(deeper@.subrange(0, deeper@.len() as int) =~= deeper@);
                }
                proof {
                    assert forall|s: NodeId, j: int|
                        0 <= j < k + 1 && #[trigger] on_frontier(self.o@, self.f@, self.g@, x, s) && anc_or_self(
                            self.o@.nodes,
                            #[trigger] kids@[j],
                            s,
                        ) implies out@.contains(s) by {
                        if j < k {
                            assert(before_out.contains(s));
                            let t = choose|t: int| 0 <= t < before_out.len() && before_out[t] == s;
                            assert(out@[t] == before_out[t]);
                        } else {
                            assert(c != s);
                            assert(on_frontier(self.o@, self.f@, self.g@, c, s)) by {
                                assert forall|z: NodeId|
                                    #![trigger anc_in(self.o@.nodes, c, z), anc_in(self.o@.nodes, z, s)]
                                    anc_in(self.o@.nodes, c, z) && anc_in(self.o@.nodes, z, s) implies !kept_by_both(
                                    self.f@,
                                    self.g@,
                                    z,
                                ) by {
                                    crate::tree::lemma_anc_trans(self.o@, x, c, z);
                                }
                            }
                            assert(deeper@.contains(s));
                            let t = choose|t: int| 0 <= t < deeper@.len() && deeper@[t] == s;
                            assert(out@[before_out.len() + t] == s);
                        }
                    }
                }
            }
            k = k + 1;
        }
        proof {
            assert forall|s: NodeId| #[trigger] on_frontier(self.o@, self.f@, self.g@, x, s) implies out@.contains(s) by {
                crate::embed::lemma_child_toward(self.o@, x, s);
                let j = choose|j: int|
                    0 <= j < self.o@.children(x).len() && anc_or_self(self.o@.nodes, #[trigger] self.o@.children(x)[j], s);
                assert(kids@[j] == self.o@.children(x)[j]);
            }
        }
        out
    }

    /// Walks one branch image's children, collecting insertions into the
    /// slot of the nearest preceding child whose preimage sits in the
    /// base: `runs[i]` holds the grafts landing before `base[i]`, the
    /// tail those after the last base survivor.
    fn insert_runs(
        &self,
        branch: Branch,
        parent_image: NodeId,
        base_position: &HashMap<usize, usize>,
        slot_count: usize,
    ) -> (r: (Vec<Vec<NodeId>>, Vec<NodeId>))
        requires
            self.inv(),
            branch == Branch::A ==> self.a@.valid(parent_image),
            branch == Branch::B ==> self.b@.valid(parent_image),
            forall|key: usize| #[trigger] base_position@.contains_key(key) ==> base_position@[key] < slot_count,
        ensures
            r.0@.len() == slot_count,
            forall|i: int, k: int|
                #![trigger r.0@[i]@[k]]
                0 <= i < r.0@.len() && 0 <= k < r.0@[i]@.len() ==> (branch == Branch::A ==> self.a@.valid(
                    r.0@[i]@[k],
                ) && self.f@.preimage(r.0@[i]@[k]) is None) && (branch == Branch::B ==> self.b@.valid(r.0@[i]@[k])
                    && self.g@.preimage(r.0@[i]@[k]) is None),
            forall|k: int|
                0 <= k < r.1@.len() ==> (branch == Branch::A ==> self.a@.valid(#[trigger] r.1@[k])
                    && self.f@.preimage(r.1@[k]) is None) && (branch == Branch::B ==> self.b@.valid(r.1@[k])
                    && self.g@.preimage(r.1@[k]) is None),
    {
        broadcast use vstd::std_specs::hash::group_hash_axioms;

        let (tree, matching) = match branch {
            Branch::A => (self.a, self.f),
            Branch::B => (self.b, self.g),
        };
        proof {
            crate::diff::lemma_children(tree@, parent_image);
        }
        let mut runs: Vec<Vec<NodeId>> = Vec::new();
        let mut i: usize = 0;
        while i < slot_count
            invariant
                i <= slot_count,
                runs@.len() == i,
                forall|t: int| 0 <= t < i ==> (#[trigger] runs@[t])@.len() == 0,
            decreases slot_count - i,
        {
            runs.push(Vec::new());
            i = i + 1;
        }
        let mut tail: Vec<NodeId> = Vec::new();
        let mut cursor: usize = 0;
        let kids = tree.children(parent_image);
        let mut k: usize = 0;
        while k < kids.len()
            invariant
                self.inv(),
                tree@.valid(parent_image),
                tree@.wf(),
                branch == Branch::A ==> tree == self.a && matching == self.f,
                branch == Branch::B ==> tree == self.b && matching == self.g,
                kids@ == tree@.children(parent_image),
                forall|j: int| 0 <= j < kids@.len() ==> parent_image.0 < (#[trigger] kids@[j]).0 < tree@.len(),
                forall|key: usize| #[trigger] base_position@.contains_key(key) ==> base_position@[key] < slot_count,
                cursor <= slot_count,
                runs@.len() == slot_count,
                forall|i: int, t: int|
                    #![trigger runs@[i]@[t]]
                    0 <= i < runs@.len() && 0 <= t < runs@[i]@.len() ==> tree@.valid(runs@[i]@[t])
                        && matching@.preimage(runs@[i]@[t]) is None,
                forall|t: int| 0 <= t < tail@.len() ==> tree@.valid(#[trigger] tail@[t]) && matching@.preimage(tail@[t]) is None,
                k <= kids@.len(),
            decreases kids@.len() - k,
        {
            let child = kids[k];
            match matching.preimage(child) {
                Some(c) => {
                    if let Some(pos) = base_position.get(&c.0) {
                        proof {
                            assert(base_position@.contains_key(c.0));
                        }
                        cursor = *pos + 1;
                    }
                },
                None => {
                    if cursor < slot_count {
                        let ghost before = runs@;
                        let mut run = runs.remove(cursor);
                        run.push(child);
                        runs.insert(cursor, run);
                        proof {
                            assert(matching@.bwd[child.0 as int] is None);
                            assert forall|i: int, t: int|
                                #![trigger runs@[i]@[t]]
                                0 <= i < runs@.len() && 0 <= t < runs@[i]@.len() implies tree@.valid(runs@[i]@[t])
                                    && matching@.preimage(runs@[i]@[t]) is None by {
                                if i != cursor {
                                    assert(runs@[i] == before[i]);
                                } else if t < before[i]@.len() {
                                    assert(runs@[i]@[t] == before[i]@[t]);
                                }
                            }
                        }
                    } else {
                        proof {
                            assert(matching@.bwd[child.0 as int] is None);
                        }
                        tail.push(child);
                    }
                },
            }
            k = k + 1;
        }
        (runs, tail)
    }
}

impl Builder<'_> {
    /// Materializes an inserted branch subtree. Matched descendants
    /// whose preimage survives are pulled in (marked consumed so their
    /// O position skips them); already-placed survivors stay where the
    /// O walk put them.
    fn graft(&mut self, branch: Branch, node: NodeId) -> (r: MergedId)
        requires
            old(self).inv(),
            branch == Branch::A ==> old(self).a@.valid(node) && old(self).f@.preimage(node) is None,
            branch == Branch::B ==> old(self).b@.valid(node) && old(self).g@.preimage(node) is None,
            old(self).consumed_placed(-1),
        ensures
            final(self).inv(),
            final(self).grows(old(self)),
            final(self).consumed_placed(-1),
            final(self).finishes(old(self), -1),
            r.0 < final(self).nodes@.len(),
            old(self).nodes@.len() <= r.0,
            view_merged_nodes(final(self).nodes@)[r.0 as int].0 == branch_origin(branch, node),
            forall|i: int|
                old(self).nodes@.len() <= i < final(self).nodes@.len() && i != r.0 ==> final(self).linked(i),
        decreases count_false(old(self).placed@), old(self).branch_len(branch) - node.0,
    {
        let (tree, matching) = match branch {
            Branch::A => (self.a, self.f),
            Branch::B => (self.b, self.g),
        };
        proof {
            crate::diff::lemma_children(tree@, node);
        }
        let ghost start = *self;
        let kids = tree.children(node);
        let mut children: Vec<MergedId> = Vec::new();
        let mut k: usize = 0;
        while k < kids.len()
            invariant
                self.inv(),
                self.grows(&start),
                start.inv(),
                count_false(self.placed@) <= count_false(old(self).placed@),
                start == *old(self),
                tree@.valid(node),
                tree@.wf(),
                branch == Branch::A ==> tree == self.a && matching == self.f && self.branch_len(branch) == tree@.len(),
                branch == Branch::B ==> tree == self.b && matching == self.g && self.branch_len(branch) == tree@.len(),
                kids@ == tree@.children(node),
                forall|j: int| 0 <= j < kids@.len() ==> node.0 < (#[trigger] kids@[j]).0 < tree@.len(),
                forall|j: int| 0 <= j < children@.len() ==> (#[trigger] children@[j]).0 < self.nodes@.len(),
                k <= kids@.len(),
                self.consumed_placed(-1),
                self.finishes(&start, -1),
                forall|i: int|
                    start.nodes@.len() <= i < self.nodes@.len() && !self.linked(i) ==> children@.contains(
                        MergedId(i as usize),
                    ),
            decreases kids@.len() - k,
        {
            let child = kids[k];
            match matching.preimage(child) {
                None => {
                    let ghost mid = *self;
                    let ghost kids_before = children@;
                    let id = self.graft(branch, child);
                    proof {
                        lemma_finishes_chain(start, mid, *self, -1);
                    }
                    children.push(id);
                    proof {
                        lemma_pending_moves(start, mid, *self, kids_before, children@, id);
                    }
                },
                Some(c) => {
                    proof {
                        assert(matching@.bwd[child.0 as int] == Some(c));
                    }
                    if self.survives(c) && !self.placed[c.0] && !self.consumed[c.0] {
                        let ghost mid = *self;
                        self.consumed.set(c.0, true);
                        let ghost mid2 = *self;
                        proof {
                            lemma_finishes_chain(start, mid, mid2, -1);
                        }
                        let ghost kids_before = children@;
                        proof {
                            assert(mid2.grows(&mid));
                            assert forall|i: int|
                                start.nodes@.len() <= i < mid2.nodes@.len() && !mid2.linked(i) implies kids_before.contains(
                                MergedId(i as usize),
                            ) by {
                                if mid.linked(i) {
                                    lemma_linked_grows(mid, mid2, i);
                                }
                            }
                        }
                        let id = self.build_survivor(c);
                        proof {
                            lemma_finishes_chain(start, mid2, *self, -1);
                        }
                        children.push(id);
                        proof {
                            lemma_pending_moves(start, mid2, *self, kids_before, children@, id);
                        }
                    }
                    // Matched but not a survivor (the other branch
                    // deleted it), or already placed: contributes
                    // nothing here.
                },
            }
            k = k + 1;
        }
        let origin = match branch {
            Branch::A => Origin::A(node),
            Branch::B => Origin::B(node),
        };
        let ghost before_push = *self;
        let ghost kids = children@;
        let r = self.push(MergedNode { origin, children });
        proof {
            lemma_finishes_chain(start, before_push, *self, -1);
            lemma_pending_attached(start, before_push, *self, kids, r);
        }
        r
    }

    /// Materializes a survivor: origin picks the relabeling branch when
    /// one relabeled it (identical relabels dedupe by taking A's), and
    /// children interleave the spliced O base with branch grafts.
    fn build_survivor(&mut self, x: NodeId) -> (r: MergedId)
        requires
            old(self).inv(),
            old(self).o@.valid(x),
            old(self).f@.image(x) is Some,
            old(self).g@.image(x) is Some,
            !old(self).placed@[x.0 as int],
            old(self).consumed_placed(x.0 as int),
        ensures
            final(self).inv(),
            final(self).grows(old(self)),
            final(self).consumed_placed(-1),
            final(self).finishes(old(self), -1),
            final(self).placed@[x.0 as int],
            forall|i: int|
                old(self).nodes@.len() <= i < final(self).nodes@.len() && i != r.0 ==> final(self).linked(i),
            count_false(final(self).placed@) < count_false(old(self).placed@),
            r.0 < final(self).nodes@.len(),
            final(self).survivor_origin(x, view_merged_nodes(final(self).nodes@)[r.0 as int].0),
        decreases count_false(old(self).placed@), 0nat,
    {
        broadcast use vstd::std_specs::hash::group_hash_axioms;

        let ghost start = *self;
        proof {
            lemma_count_false_set(self.placed@, x.0 as int);
        }
        self.placed.set(x.0, true);
        let ghost entry_count = count_false(self.placed@);

        let in_a = self.f.image(x);
        let in_b = self.g.image(x);
        let o_label = self.o.label(x);
        let mut origin = Origin::O(x);
        if let Some(ya) = in_a {
            if !opt_str_eq(self.a.label(ya), o_label) {
                origin = Origin::A(ya);
            }
        }
        if origin == Origin::O(x) {
            if let Some(yb) = in_b {
                if !opt_str_eq(self.b.label(yb), o_label) {
                    origin = Origin::B(yb);
                }
            }
        }

        // Base: the surviving frontier of x's O children, in O order.
        let base = self.splice(x);
        let mut base_position: HashMap<usize, usize> = HashMap::new();
        let mut i: usize = 0;
        while i < base.len()
            invariant
                i <= base@.len(),
                forall|key: usize| #[trigger] base_position@.contains_key(key) ==> base_position@[key] < base@.len(),
            decreases base@.len() - i,
        {
            base_position.insert(base[i].0, i);
            i = i + 1;
        }

        // Slots: grafts landing before base[i] live in runs[i]; the
        // tails hold end-of-list grafts. Each branch's inserted runs are
        // collected first so cross-branch dedupe can compare whole runs,
        // then grafted A before B — within a shared slot A's insertions
        // come first.
        let slot_count = base.len();
        let (runs_a, tail_a) = match in_a {
            Some(image) => self.insert_runs(Branch::A, image, &base_position, slot_count),
            None => (empty_runs(slot_count), Vec::new()),
        };
        let (runs_b, tail_b) = match in_b {
            Some(image) => self.insert_runs(Branch::B, image, &base_position, slot_count),
            None => (empty_runs(slot_count), Vec::new()),
        };
        let mut kept_b: Vec<Vec<NodeId>> = Vec::new();
        let mut i: usize = 0;
        while i < slot_count
            invariant
                self.inv(),
                i <= slot_count,
                runs_a@.len() == slot_count,
                runs_b@.len() == slot_count,
                kept_b@.len() == i,
                forall|s: int, k: int|
                    #![trigger runs_a@[s]@[k]]
                    0 <= s < runs_a@.len() && 0 <= k < runs_a@[s]@.len() ==> self.a@.valid(runs_a@[s]@[k])
                        && self.f@.preimage(runs_a@[s]@[k]) is None,
                forall|s: int, k: int|
                    #![trigger runs_b@[s]@[k]]
                    0 <= s < runs_b@.len() && 0 <= k < runs_b@[s]@.len() ==> self.b@.valid(runs_b@[s]@[k])
                        && self.g@.preimage(runs_b@[s]@[k]) is None,
                forall|s: int, k: int|
                    #![trigger kept_b@[s]@[k]]
                    0 <= s < kept_b@.len() && 0 <= k < kept_b@[s]@.len() ==> self.b@.valid(kept_b@[s]@[k])
                        && self.g@.preimage(kept_b@[s]@[k]) is None,
            decreases slot_count - i,
        {
            let kept = dedupe_run(self.a, self.b, runs_a[i].as_slice(), runs_b[i].as_slice());
            proof {
                assert forall|k: int| 0 <= k < kept@.len() implies self.b@.valid(#[trigger] kept@[k])
                    && self.g@.preimage(kept@[k]) is None by {
                    assert(runs_b@[i as int]@.contains(kept@[k]));
                }
            }
            kept_b.push(kept);
            i = i + 1;
        }
        let kept_tail_b = dedupe_run(self.a, self.b, tail_a.as_slice(), tail_b.as_slice());

        let ghost s0 = *self;
        let grafted_a = self.graft_all(Branch::A, &runs_a);
        let ghost s1 = *self;
        let grafted_tail_a = self.graft_run(Branch::A, &tail_a);
        let ghost s2 = *self;
        let grafted_b = self.graft_all(Branch::B, &kept_b);
        let ghost s3 = *self;
        let grafted_tail_b = self.graft_run(Branch::B, &kept_tail_b);
        proof {
            assert(s0.grows(&start));
            assert(s0.finishes(&start, x.0 as int));
            lemma_finishes_chain(start, s0, s1, x.0 as int);
            lemma_finishes_chain(start, s1, s2, x.0 as int);
            lemma_finishes_chain(start, s2, s3, x.0 as int);
            lemma_finishes_chain(start, s3, *self, x.0 as int);
            assert(s0.placed@[x.0 as int]);
            assert(s1.placed@[x.0 as int]);
            assert(s2.placed@[x.0 as int]);
            assert(s3.placed@[x.0 as int]);
            lemma_grows_trans(s1, s2, s3);
            lemma_grows_trans(s1, s3, *self);
            lemma_grows_trans(s2, s3, *self);
            assert forall|n: int| start.nodes@.len() <= n < self.nodes@.len() && !self.linked(n) implies
                (exists|t: int| 0 <= t < grafted_a@.len() && (#[trigger] grafted_a@[t])@.contains(MergedId(n as usize)))
                || (exists|t: int| 0 <= t < grafted_b@.len() && (#[trigger] grafted_b@[t])@.contains(MergedId(n as usize)))
                || grafted_tail_a@.contains(MergedId(n as usize)) || grafted_tail_b@.contains(MergedId(n as usize)) by {
                if n < s1.nodes@.len() {
                    if s1.linked(n) {
                        lemma_linked_grows(s1, *self, n);
                    }
                } else if n < s2.nodes@.len() {
                    if s2.linked(n) {
                        lemma_linked_grows(s2, *self, n);
                    }
                } else if n < s3.nodes@.len() {
                    if s3.linked(n) {
                        lemma_linked_grows(s3, *self, n);
                    }
                }
            }
        }

        // Materialize: slot grafts, then the base survivor they precede.
        let mut children: Vec<MergedId> = Vec::new();
        let mut i: usize = 0;
        while i < base.len()
            invariant
                self.inv(),
                self.grows(&start),
                count_false(self.placed@) <= entry_count,
                entry_count < count_false(start.placed@),
                start.inv(),
                start == *old(self),
                i <= base@.len(),
                forall|k: int| 0 <= k < grafted_tail_a@.len() ==> (#[trigger] grafted_tail_a@[k]).0 < self.nodes@.len(),
                forall|k: int| 0 <= k < grafted_tail_b@.len() ==> (#[trigger] grafted_tail_b@[k]).0 < self.nodes@.len(),
                grafted_a@.len() == slot_count,
                grafted_b@.len() == slot_count,
                slot_count == base@.len(),
                forall|j: int| 0 <= j < base@.len() ==> self.o@.valid(#[trigger] base@[j]) && self.f@.image(base@[j])
                    is Some && self.g@.image(base@[j]) is Some,
                forall|s: int, k: int|
                    #![trigger grafted_a@[s]@[k]]
                    0 <= s < grafted_a@.len() && 0 <= k < grafted_a@[s]@.len() ==> grafted_a@[s]@[k].0 < self.nodes@.len(),
                forall|s: int, k: int|
                    #![trigger grafted_b@[s]@[k]]
                    0 <= s < grafted_b@.len() && 0 <= k < grafted_b@[s]@.len() ==> grafted_b@[s]@[k].0 < self.nodes@.len(),
                forall|j: int| 0 <= j < children@.len() ==> (#[trigger] children@[j]).0 < self.nodes@.len(),
                self.consumed_placed(-1),
                self.finishes(&start, x.0 as int),
                x.0 < self.placed@.len(),
                self.placed@[x.0 as int],
                forall|j: int| 0 <= j < i ==> self.placed@[(#[trigger] base@[j]).0 as int],
                forall|n: int| start.nodes@.len() <= n < self.nodes@.len() && !self.linked(n) ==> children@.contains(
                    MergedId(n as usize),
                ) || (exists|t: int| i <= t < grafted_a@.len() && (#[trigger] grafted_a@[t])@.contains(MergedId(n as usize)))
                    || (exists|t: int| i <= t < grafted_b@.len() && (#[trigger] grafted_b@[t])@.contains(MergedId(n as usize)))
                    || grafted_tail_a@.contains(MergedId(n as usize)) || grafted_tail_b@.contains(MergedId(n as usize)),
            decreases base@.len() - i,
        {
            let ghost st = *self;
            let ghost ch0 = children@;
            let ghost before = children@;
            append_ids(&mut children, &grafted_a[i]);
            proof {
                assert forall|j: int| 0 <= j < children@.len() implies (#[trigger] children@[j]).0 < self.nodes@.len() by {
                    if j >= before.len() {
                        assert(children@[j] == grafted_a@[i as int]@[j - before.len()]);
                    }
                }
            }
            let ghost before = children@;
            append_ids(&mut children, &grafted_b[i]);
            proof {
                assert forall|j: int| 0 <= j < children@.len() implies (#[trigger] children@[j]).0 < self.nodes@.len() by {
                    if j >= before.len() {
                        assert(children@[j] == grafted_b@[i as int]@[j - before.len()]);
                    }
                }
            }
            let ghost ch1 = children@;
            proof {
                assert(ch1 == ch0 + grafted_a@[i as int]@ + grafted_b@[i as int]@);
            }
            let c = base[i];
            if !self.consumed[c.0] && !self.placed[c.0] {
                let ghost mid = *self;
                let id = self.build_survivor(c);
                proof {
                    lemma_finishes_chain(start, mid, *self, x.0 as int);
                    lemma_grows_trans(st, mid, *self);
                    assert(mid.placed@[x.0 as int]);
                    assert(self.placed@[x.0 as int]);
                    assert forall|j: int| 0 <= j < i implies self.placed@[(#[trigger] base@[j]).0 as int] by {
                        assert(mid.placed@[base@[j].0 as int]);
                    }
                }
                children.push(id);
                proof {
                    lemma_pending_moves(st, mid, *self, ch1, children@, id);
                }
            }
            proof {
                assert(self.placed@[c.0 as int]);
                assert(self.grows(&st));
                assert forall|n: int| start.nodes@.len() <= n < self.nodes@.len() && !self.linked(n) implies children@.contains(
                    MergedId(n as usize),
                ) || (exists|t: int| i + 1 <= t < grafted_a@.len() && (#[trigger] grafted_a@[t])@.contains(MergedId(n as usize)))
                    || (exists|t: int| i + 1 <= t < grafted_b@.len() && (#[trigger] grafted_b@[t])@.contains(MergedId(n as usize)))
                    || grafted_tail_a@.contains(MergedId(n as usize)) || grafted_tail_b@.contains(MergedId(n as usize)) by {
                    lemma_pending_step(
                        st,
                        *self,
                        ch0,
                        ch1,
                        children@,
                        grafted_a@,
                        grafted_b@,
                        grafted_tail_a@,
                        grafted_tail_b@,
                        i as int,
                        start.nodes@.len() as int,
                    );
                }
            }
            i = i + 1;
        }
        let ghost ch_end = children@;
        let ghost before = children@;
        append_ids(&mut children, &grafted_tail_a);
        proof {
            assert forall|j: int| 0 <= j < children@.len() implies (#[trigger] children@[j]).0 < self.nodes@.len() by {
                if j >= before.len() {
                    assert(children@[j] == grafted_tail_a@[j - before.len()]);
                }
            }
        }
        let ghost before = children@;
        append_ids(&mut children, &grafted_tail_b);
        proof {
            assert forall|j: int| 0 <= j < children@.len() implies (#[trigger] children@[j]).0 < self.nodes@.len() by {
                if j >= before.len() {
                    assert(children@[j] == grafted_tail_b@[j - before.len()]);
                }
            }
        }
        proof {
            assert(self.o@.valid(x));
            if let Some(ya) = in_a {
                assert(self.f@.fwd[x.0 as int] == Some(ya));
            }
            if let Some(yb) = in_b {
                assert(self.g@.fwd[x.0 as int] == Some(yb));
            }
        }
        let ghost before_push = *self;
        let ghost kids = children@;
        proof {
            assert forall|n: int|
                start.nodes@.len() <= n < before_push.nodes@.len() && !before_push.linked(n) implies kids.contains(
                MergedId(n as usize),
            ) by {
                let id = MergedId(n as usize);
                assert(kids == ch_end + grafted_tail_a@ + grafted_tail_b@);
                if ch_end.contains(id) {
                    let k = choose|k: int| 0 <= k < ch_end.len() && ch_end[k] == id;
                    assert(kids[k] == id);
                } else if grafted_tail_a@.contains(id) {
                    let k = choose|k: int| 0 <= k < grafted_tail_a@.len() && grafted_tail_a@[k] == id;
                    assert(kids[ch_end.len() + k] == id);
                } else if grafted_tail_b@.contains(id) {
                    let k = choose|k: int| 0 <= k < grafted_tail_b@.len() && grafted_tail_b@[k] == id;
                    assert(kids[ch_end.len() + grafted_tail_a@.len() + k] == id);
                }
            }
        }
        let r = self.push(MergedNode { origin, children });
        proof {
            lemma_pending_attached(start, before_push, *self, kids, r);
            lemma_finishes_chain(start, before_push, *self, x.0 as int);
            assert forall|s: NodeId| #[trigger] on_frontier(self.o@, self.f@, self.g@, x, s) implies self.placed@[
                s.0 as int] by {
                assert(base@.contains(s));
                let j = choose|j: int| 0 <= j < base@.len() && base@[j] == s;
                assert(before_push.placed@[base@[j].0 as int]);
            }
            assert(self.survivor_origin(x, view_merged_nodes(self.nodes@)[r.0 as int].0));
            assert(self.finished(x));
        }
        r
    }

    /// Grafts every node of every run, run by run.
    fn graft_all(&mut self, branch: Branch, runs: &Vec<Vec<NodeId>>) -> (r: Vec<Vec<MergedId>>)
        requires
            old(self).inv(),
            old(self).consumed_placed(-1),
            forall|s: int, k: int|
                #![trigger runs@[s]@[k]]
                0 <= s < runs@.len() && 0 <= k < runs@[s]@.len() ==> (branch == Branch::A ==> old(self).a@.valid(
                    runs@[s]@[k],
                ) && old(self).f@.preimage(runs@[s]@[k]) is None) && (branch == Branch::B ==> old(self).b@.valid(
                    runs@[s]@[k],
                ) && old(self).g@.preimage(runs@[s]@[k]) is None),
        ensures
            final(self).inv(),
            final(self).grows(old(self)),
            final(self).consumed_placed(-1),
            final(self).finishes(old(self), -1),
            r@.len() == runs@.len(),
            forall|s: int, k: int|
                #![trigger r@[s]@[k]]
                0 <= s < r@.len() && 0 <= k < r@[s]@.len() ==> r@[s]@[k].0 < final(self).nodes@.len(),
            forall|i: int|
                old(self).nodes@.len() <= i < final(self).nodes@.len() && !final(self).linked(i) ==> exists|t: int|
                    0 <= t < r@.len() && (#[trigger] r@[t])@.contains(MergedId(i as usize)),
        decreases count_false(old(self).placed@), 2 * (old(self).a@.len() + old(self).b@.len()) + 2,
    {
        let ghost start = *self;
        let mut out: Vec<Vec<MergedId>> = Vec::new();
        let mut s: usize = 0;
        while s < runs.len()
            invariant
                self.inv(),
                self.grows(&start),
                start == *old(self),
                start.inv(),
                s <= runs@.len(),
                out@.len() == s,
                self.consumed_placed(-1),
                self.finishes(&start, -1),
                forall|i: int|
                    start.nodes@.len() <= i < self.nodes@.len() && !self.linked(i) ==> exists|t: int|
                        0 <= t < out@.len() && (#[trigger] out@[t])@.contains(MergedId(i as usize)),
                forall|i: int, k: int|
                    #![trigger runs@[i]@[k]]
                    0 <= i < runs@.len() && 0 <= k < runs@[i]@.len() ==> (branch == Branch::A ==> self.a@.valid(
                        runs@[i]@[k],
                    ) && self.f@.preimage(runs@[i]@[k]) is None) && (branch == Branch::B ==> self.b@.valid(
                        runs@[i]@[k],
                    ) && self.g@.preimage(runs@[i]@[k]) is None),
                forall|i: int, k: int|
                    #![trigger out@[i]@[k]]
                    0 <= i < out@.len() && 0 <= k < out@[i]@.len() ==> out@[i]@[k].0 < self.nodes@.len(),
            decreases runs@.len() - s,
        {
            proof {
                assert forall|k: int| 0 <= k < runs@[s as int]@.len() implies (branch == Branch::A ==> self.a@.valid(
                    #[trigger] runs@[s as int]@[k],
                ) && self.f@.preimage(runs@[s as int]@[k]) is None) && (branch == Branch::B ==> self.b@.valid(
                    runs@[s as int]@[k],
                ) && self.g@.preimage(runs@[s as int]@[k]) is None) by {}
            }
            let ghost mid = *self;
            let ghost out_before = out@;
            let ids = self.graft_run(branch, &runs[s]);
            proof {
                lemma_finishes_chain(start, mid, *self, -1);
            }
            out.push(ids);
            proof {
                assert forall|i: int|
                    start.nodes@.len() <= i < self.nodes@.len() && !self.linked(i) implies exists|t: int|
                        0 <= t < out@.len() && (#[trigger] out@[t])@.contains(MergedId(i as usize)) by {
                    if i < mid.nodes@.len() {
                        if mid.linked(i) {
                            lemma_linked_grows(mid, *self, i);
                        }
                        let t = choose|t: int| 0 <= t < out_before.len() && (#[trigger] out_before[t])@.contains(MergedId(i as usize));
                        assert(out@[t] == out_before[t]);
                    } else {
                        assert(out@[out@.len() - 1] == ids);
                    }
                }
            }
            s = s + 1;
        }
        out
    }

    /// Grafts each node of one run, in order.
    fn graft_run(&mut self, branch: Branch, run: &Vec<NodeId>) -> (r: Vec<MergedId>)
        requires
            old(self).inv(),
            old(self).consumed_placed(-1),
            forall|k: int|
                0 <= k < run@.len() ==> (branch == Branch::A ==> old(self).a@.valid(#[trigger] run@[k])
                    && old(self).f@.preimage(run@[k]) is None) && (branch == Branch::B ==> old(self).b@.valid(run@[k])
                    && old(self).g@.preimage(run@[k]) is None),
        ensures
            final(self).inv(),
            final(self).grows(old(self)),
            final(self).consumed_placed(-1),
            final(self).finishes(old(self), -1),
            forall|k: int| 0 <= k < r@.len() ==> (#[trigger] r@[k]).0 < final(self).nodes@.len(),
            forall|i: int|
                old(self).nodes@.len() <= i < final(self).nodes@.len() && !final(self).linked(i) ==> r@.contains(
                    MergedId(i as usize),
                ),
            r@.len() == run@.len(),
            forall|k: int|
                0 <= k < r@.len() ==> old(self).nodes@.len() <= (#[trigger] r@[k]).0 && view_merged_nodes(
                    final(self).nodes@,
                )[r@[k].0 as int].0 == branch_origin(branch, run@[k]),
        decreases count_false(old(self).placed@), 2 * (old(self).a@.len() + old(self).b@.len()) + 1,
    {
        let ghost start = *self;
        let mut out: Vec<MergedId> = Vec::new();
        let mut k: usize = 0;
        while k < run.len()
            invariant
                self.inv(),
                self.grows(&start),
                start == *old(self),
                start.inv(),
                k <= run@.len(),
                self.consumed_placed(-1),
                self.finishes(&start, -1),
                forall|i: int|
                    start.nodes@.len() <= i < self.nodes@.len() && !self.linked(i) ==> out@.contains(
                        MergedId(i as usize),
                    ),
                forall|t: int|
                    0 <= t < run@.len() ==> (branch == Branch::A ==> self.a@.valid(#[trigger] run@[t])
                        && self.f@.preimage(run@[t]) is None) && (branch == Branch::B ==> self.b@.valid(run@[t])
                        && self.g@.preimage(run@[t]) is None),
                forall|t: int| 0 <= t < out@.len() ==> (#[trigger] out@[t]).0 < self.nodes@.len(),
                out@.len() == k,
                forall|t: int|
                    0 <= t < out@.len() ==> start.nodes@.len() <= (#[trigger] out@[t]).0 && view_merged_nodes(
                        self.nodes@,
                    )[out@[t].0 as int].0 == branch_origin(branch, run@[t]),
            decreases run@.len() - k,
        {
            let ghost mid = *self;
            let ghost out_before = out@;
            let id = self.graft(branch, run[k]);
            proof {
                lemma_finishes_chain(start, mid, *self, -1);
            }
            out.push(id);
            proof {
                lemma_pending_moves(start, mid, *self, out_before, out@, id);
                assert forall|t: int|
                    0 <= t < out@.len() implies start.nodes@.len() <= (#[trigger] out@[t]).0 && view_merged_nodes(
                        self.nodes@,
                    )[out@[t].0 as int].0 == branch_origin(branch, run@[t]) by {
                    if t < out_before.len() {
                        assert(out@[t] == out_before[t]);
                        assert(view_merged_nodes(self.nodes@)[out@[t].0 as int] == view_merged_nodes(mid.nodes@)[out@[t].0 as int]);
                    }
                }
            }
            k = k + 1;
        }
        out
    }
}

fn empty_runs(count: usize) -> (r: Vec<Vec<NodeId>>)
    ensures
        r@.len() == count,
        forall|s: int| 0 <= s < count ==> (#[trigger] r@[s])@.len() == 0,
{
    let mut r: Vec<Vec<NodeId>> = Vec::new();
    let mut i: usize = 0;
    while i < count
        invariant
            i <= count,
            r@.len() == i,
            forall|s: int| 0 <= s < i ==> (#[trigger] r@[s])@.len() == 0,
        decreases count - i,
    {
        r.push(Vec::new());
        i = i + 1;
    }
    r
}

fn append_ids(out: &mut Vec<MergedId>, ids: &Vec<MergedId>)
    ensures
        final(out)@ == old(out)@ + ids@,
{
    let ghost start = out@;
    let mut k: usize = 0;
    while k < ids.len()
        invariant
            k <= ids@.len(),
            out@ == start + ids@.subrange(0, k as int),
        decreases ids@.len() - k,
    {
        out.push(ids[k]);
        k = k + 1;
        proof {
            assert(out@ =~= start + ids@.subrange(0, k as int));
        }
    }
    proof {
        assert(ids@.subrange(0, ids@.len() as int) =~= ids@);
    }
}

/// Which branch's layout a merge adopts: a branch whose edit script is
/// empty but whose text differs from O only reformatted, and its layout
/// wins (A first when both did).
pub open spec fn reformat_choice(
    o: TreeView,
    a: TreeView,
    b: TreeView,
    edits_a: Seq<Edit>,
    edits_b: Seq<Edit>,
) -> Option<bool> {
    if edits_a.len() == 0 && a.source != o.source {
        Some(true)
    } else if edits_b.len() == 0 && b.source != o.source {
        Some(false)
    } else {
        None
    }
}

/// An origin after adopting a branch's layout: surviving O nodes move to
/// their image in that branch.
pub open spec fn adopt_origin(origin: Origin, m: MatchingView, to_a: bool) -> Origin {
    match origin {
        Origin::O(n) => match m.image(n) {
            Some(y) => if to_a {
                Origin::A(y)
            } else {
                Origin::B(y)
            },
            None => origin,
        },
        _ => origin,
    }
}

/// The whole source text of a tree.
fn full_text(tree: &Tree) -> (r: Option<&str>)
    ensures
        opt_view(r) == Some(tree@.source),
{
    proof {
        crate::text::lemma_whole_slice(tree@.source);
    }
    tree.source_slice(0..tree.source_len())
}

/// Adopts a reformat-only branch's layout. A branch that only changed
/// trivia is invisible to the pushout — its tree is isomorphic to O —
/// so every survivor keeps its O origin and synthesis emits O's stale
/// formatting, silently discarding the reformat. Remapping surviving
/// O origins to that branch's image makes synthesis emit the
/// reformatted bytes instead. When both branches are edit-free, A
/// wins if it reformatted at all: span synthesis cannot honor two
/// different reformats of the same code at once.
fn prefer_reformatted_origins(
    merged: &mut MergedTree,
    o: &Tree,
    a: (&Tree, &Matching, &Vec<Edit>),
    b: (&Tree, &Matching, &Vec<Edit>),
)
    requires
        a.1@.wf(),
        a.1@.fits(o@, a.0@),
        b.1@.wf(),
        b.1@.fits(o@, b.0@),
        old(merged)@.wf(),
        old(merged)@.origins_valid(o@, a.0@, b.0@),
    ensures
        final(merged)@.wf(),
        final(merged)@.origins_valid(o@, a.0@, b.0@),
        final(merged)@.root == old(merged)@.root,
        final(merged)@.len() == old(merged)@.len(),
        forall|i: int|
            0 <= i < final(merged)@.len() ==> (#[trigger] final(merged)@.nodes[i]).1 == old(merged)@.nodes[i].1
                && final(merged)@.nodes[i].0 == match reformat_choice(o@, a.0@, b.0@, a.2@, b.2@) {
                Some(true) => adopt_origin(old(merged)@.nodes[i].0, a.1@, true),
                Some(false) => adopt_origin(old(merged)@.nodes[i].0, b.1@, false),
                None => old(merged)@.nodes[i].0,
            },
{
    let o_text = full_text(o);
    let to_a = if a.2.len() == 0 && !opt_str_eq(full_text(a.0), o_text) {
        true
    } else if b.2.len() == 0 && !opt_str_eq(full_text(b.0), o_text) {
        false
    } else {
        return;
    };
    let matching = if to_a {
        a.1
    } else {
        b.1
    };
    let ghost old_nodes = view_merged_nodes(merged.nodes@);
    proof {
        assert forall|j: int|
            0 <= j < old_nodes.len() implies ((#[trigger] old_nodes[j]).0 matches Origin::O(n) ==> n.0
                < matching@.fwd.len()) by {
            assert(old(merged)@.nodes[j] == old_nodes[j]);
        }
    }
    let mut taken: Vec<MergedNode> = Vec::new();
    std::mem::swap(&mut taken, &mut merged.nodes);
    // Drain back to front, then rebuild front to back with the adopted
    // origins.
    let mut reversed: Vec<MergedNode> = Vec::new();
    while taken.len() > 0
        invariant
            taken@.len() + reversed@.len() == old_nodes.len(),
            forall|j: int| 0 <= j < taken@.len() ==> view_merged_nodes(taken@)[j] == old_nodes[j],
            forall|j: int|
                0 <= j < reversed@.len() ==> view_merged_nodes(reversed@)[j] == old_nodes[old_nodes.len() - 1 - j],
        decreases taken@.len(),
    {
        let ghost before = taken@;
        let node = taken.pop().unwrap();
        proof {
            assert(before[before.len() - 1] == node);
            assert(view_merged_nodes(before)[before.len() - 1] == (node.origin, node.children@));
            assert forall|j: int| 0 <= j < taken@.len() implies view_merged_nodes(taken@)[j] == old_nodes[j] by {
                assert(taken@[j] == before[j]);
                assert(view_merged_nodes(before)[j] == old_nodes[j]);
            }
        }
        let ghost rb = reversed@;
        reversed.push(node);
        proof {
            assert forall|j: int|
                0 <= j < reversed@.len() implies view_merged_nodes(reversed@)[j] == old_nodes[old_nodes.len() - 1 - j] by {
                if j < rb.len() {
                    assert(reversed@[j] == rb[j]);
                    assert(view_merged_nodes(rb)[j] == old_nodes[old_nodes.len() - 1 - j]);
                }
            }
        }
    }
    let mut rebuilt: Vec<MergedNode> = Vec::new();
    while reversed.len() > 0
        invariant
            rebuilt@.len() + reversed@.len() == old_nodes.len(),
            forall|j: int|
                0 <= j < reversed@.len() ==> view_merged_nodes(reversed@)[j] == old_nodes[old_nodes.len() - 1 - j],
            forall|j: int|
                0 <= j < rebuilt@.len() ==> (#[trigger] view_merged_nodes(rebuilt@)[j]).1 == old_nodes[j].1
                    && view_merged_nodes(rebuilt@)[j].0 == adopt_origin(old_nodes[j].0, matching@, to_a),
            matching@.wf(),
            forall|j: int|
                0 <= j < old_nodes.len() ==> ((#[trigger] old_nodes[j]).0 matches Origin::O(n) ==> n.0
                    < matching@.fwd.len()),
        decreases reversed@.len(),
    {
        let ghost before = reversed@;
        let node = reversed.pop().unwrap();
        proof {
            assert(before[before.len() - 1] == node);
            assert(view_merged_nodes(before)[before.len() - 1] == (node.origin, node.children@));
            assert forall|j: int| 0 <= j < reversed@.len() implies view_merged_nodes(reversed@)[j] == old_nodes[old_nodes.len() - 1 - j] by {
                assert(reversed@[j] == before[j]);
                assert(view_merged_nodes(before)[j] == old_nodes[old_nodes.len() - 1 - j]);
            }
        }
        let origin = match node.origin {
            Origin::O(n) => {
                proof {
                    assert(old_nodes[rebuilt@.len() as int].0 == Origin::O(n));
                }
                match matching.image(n) {
                    Some(image) => if to_a {
                        Origin::A(image)
                    } else {
                        Origin::B(image)
                    },
                    None => node.origin,
                }
            },
            other => other,
        };
        let ghost rb = rebuilt@;
        rebuilt.push(MergedNode { origin, children: node.children });
        proof {
            assert forall|j: int|
                0 <= j < rebuilt@.len() implies (#[trigger] view_merged_nodes(rebuilt@)[j]).1 == old_nodes[j].1
                    && view_merged_nodes(rebuilt@)[j].0 == adopt_origin(old_nodes[j].0, matching@, to_a) by {
                if j < rb.len() {
                    assert(rebuilt@[j] == rb[j]);
                    assert(view_merged_nodes(rb)[j] == view_merged_nodes(rebuilt@)[j]);
                }
            }
        }
    }
    merged.nodes = rebuilt;
}

fn falses(n: usize) -> (r: Vec<bool>)
    ensures
        r@.len() == n,
        forall|i: int| 0 <= i < n ==> !#[trigger] r@[i],
{
    let mut r: Vec<bool> = Vec::new();
    let mut i: usize = 0;
    while i < n
        invariant
            i <= n,
            r@.len() == i,
            forall|k: int| 0 <= k < i ==> !#[trigger] r@[k],
        decreases n - i,
    {
        r.push(false);
        i = i + 1;
    }
    r
}

/// How a merge decides, given the diffs O→A and O→B it computed: the
/// conflicts are exactly the rules' findings on the two edit scripts,
/// and a tree is built exactly when no rule fires.
pub open spec fn merge_decided(
    o: TreeView,
    a: TreeView,
    b: TreeView,
    f: MatchingView,
    g: MatchingView,
    name_fields: Seq<u16>,
    r: Result<MergeOutcome, Error>,
) -> bool {
    let ctx = CtxView { o, a, b, f, g, name_fields };
    let edits_a = edit_script(o, a, f);
    let edits_b = edit_script(o, b, g);
    match r {
        Ok(MergeOutcome::Conflicts(cs)) => rules_fire(ctx, edits_a, edits_b) && reports_findings(
            ctx,
            edits_a,
            edits_b,
            cs@,
        ),
        Ok(MergeOutcome::Merged(t)) => !rules_fire(ctx, edits_a, edits_b) && t@.from_inputs(o, a, b, f, g)
            && t@.keeps_survivors(o, f, g),
        Err(_) => false,
    }
}

/// A branch without edits relabels nothing: every O node is matched,
/// with its label unchanged.
proof fn lemma_no_edits_no_relabel(src: TreeView, dst: TreeView, m: MatchingView, n: nat)
    requires
        crate::diff::src_edits(src, dst, m, n).len() == 0,
        n <= m.fwd.len() <= usize::MAX,
    ensures
        forall|i: int|
            0 <= i < n ==> (#[trigger] m.fwd[i] matches Some(y) && src.label(NodeId(i as usize)) == dst.label(y)),
    decreases n,
{
    if n > 0 {
        let x = NodeId((n - 1) as usize);
        let rest = crate::diff::src_edits(src, dst, m, (n - 1) as nat);
        assert(x.0 == n - 1);
        assert(m.image(x) == m.fwd[n - 1]);
        if m.image(x) is None {
            assert(crate::diff::src_edits(src, dst, m, n) == rest.push(Edit::Delete(x)));
        } else if src.label(x) != dst.label(m.image(x).unwrap()) {
            assert(crate::diff::src_edits(src, dst, m, n) == rest.push(Edit::Relabel(x, m.image(x).unwrap())));
        }
        lemma_no_edits_no_relabel(src, dst, m, (n - 1) as nat);
    }
}

/// The builder's origins come from the inputs, and stay so when a
/// branch without edits lends its layout.
proof fn lemma_final_origins(
    before: Seq<(Origin, Seq<MergedId>)>,
    after: Seq<(Origin, Seq<MergedId>)>,
    o: TreeView,
    a: TreeView,
    b: TreeView,
    f: MatchingView,
    g: MatchingView,
)
    requires
        f.wf(),
        f.fits(o, a),
        g.wf(),
        g.fits(o, b),
        (MergedView { nodes: before, root: MergedId(0) }).origins_sound(o, a, b, f, g),
        (MergedView { nodes: before, root: MergedId(0) }).origins_valid(o, a, b),
        (MergedView { nodes: before, root: MergedId(0) }).keeps_survivors(o, f, g),
        after.len() == before.len(),
        forall|i: int|
            0 <= i < after.len() ==> (#[trigger] after[i]).0 == match reformat_choice(
                o,
                a,
                b,
                edit_script(o, a, f),
                edit_script(o, b, g),
            ) {
                Some(true) => adopt_origin(before[i].0, f, true),
                Some(false) => adopt_origin(before[i].0, g, false),
                None => before[i].0,
            },
    ensures
        (MergedView { nodes: after, root: MergedId(0) }).from_inputs(o, a, b, f, g),
        (MergedView { nodes: after, root: MergedId(0) }).keeps_survivors(o, f, g),
{
    let choice = reformat_choice(o, a, b, edit_script(o, a, f), edit_script(o, b, g));
    if choice == Some(true) {
        assert(crate::diff::src_edits(o, a, f, o.len()).len() == 0);
        lemma_no_edits_no_relabel(o, a, f, o.len());
    }
    if choice == Some(false) {
        assert(crate::diff::src_edits(o, b, g, o.len()).len() == 0);
        lemma_no_edits_no_relabel(o, b, g, o.len());
    }
    let mv = MergedView { nodes: before, root: MergedId(0) };
    let av = MergedView { nodes: after, root: MergedId(0) };
    assert forall|x: NodeId| o.valid(x) && #[trigger] kept_by_both(f, g, x) implies exists|j: int|
        0 <= j < av.nodes.len() && #[trigger] copy_of(av.nodes[j].0, f, g, x) by {
        let j = choose|j: int| 0 <= j < mv.nodes.len() && #[trigger] copy_of(mv.nodes[j].0, f, g, x);
        assert(copy_of(av.nodes[j].0, f, g, x));
    }
    assert forall|i: int| #![trigger after[i]] 0 <= i < after.len() implies origin_from_inputs(
        after[i].0,
        o,
        a,
        b,
        f,
        g,
    ) by {
        assert(origin_sound(mv.nodes[i].0, o, a, b, f, g));
        assert(mv.nodes[i] == before[i]);
        let (t, n) = origin_tree(before[i].0, o, a, b);
        assert(t.valid(n));
        match before[i].0 {
            Origin::O(x) => {
                assert(f.fwd[x.0 as int] is Some);
                assert(g.fwd[x.0 as int] is Some);
            },
            Origin::A(y) => {
                if let Some(x) = f.preimage(y) {
                    assert(f.bwd[y.0 as int] == Some(x));
                    assert(f.fwd[x.0 as int] == Some(y));
                }
            },
            Origin::B(y) => {
                if let Some(x) = g.preimage(y) {
                    assert(g.bwd[y.0 as int] == Some(x));
                    assert(g.fwd[x.0 as int] == Some(y));
                }
            },
        }
    }
}

/// Merges A and B against their common origin O.
///
/// Either the conflict rules fire — and the conflicts come back, none
/// twice — or the pushout is built: a well-formed merged tree whose
/// every origin names a node of O, A, or B, rooted at O's root (or its
/// image in the branch whose layout or label it takes).
pub fn merge(o: &Tree, a: &Tree, b: &Tree) -> (r: Result<MergeOutcome, Error>)
    ensures
        r is Ok,
        r matches Ok(MergeOutcome::Conflicts(cs)) ==> cs@.len() > 0 && crate::rules::distinct_conflicts(cs@),
        r matches Ok(MergeOutcome::Merged(t)) ==> {
            &&& t@.wf()
            &&& t@.connected()
            &&& t@.origins_valid(o@, a@, b@)
            &&& origin_node(t@.origin(t@.root)) == NodeId(0)
        },
        exists|f: MatchingView, g: MatchingView|
            #![trigger diff_shaped(o@, a@, f), diff_shaped(o@, b@, g)]
            diff_shaped(o@, a@, f) && diff_shaped(o@, b@, g) && merge_decided(o@, a@, b@, f, g, name_fields_for(o@.lang), r),
{
    proof {
        use_type_invariant(o);
        use_type_invariant(a);
        use_type_invariant(b);
    }
    let f = diff(o, a);
    let g = diff(o, b);

    let grammar = o.lang().grammar();
    let mut name_fields: Vec<u16> = Vec::new();
    let name_id = crate::cst::field_id_for_name(&grammar, "name");
    let key_id = crate::cst::field_id_for_name(&grammar, "key");
    if let Some(id) = name_id {
        name_fields.push(id);
    }
    if let Some(id) = key_id {
        name_fields.push(id);
    }
    proof {
        reveal_strlit("name");
        reveal_strlit("key");
        assert(name_fields@ =~= name_fields_for(o@.lang));
    }
    let ctx = Ctx { o, a, b, f: &f, g: &g, name_fields: &name_fields };
    let edits_a = edits(o, a, &f);
    let edits_b = edits(o, b, &g);
    proof {
        crate::rules::lemma_script_valid(o@, a@, f@);
        crate::rules::lemma_script_valid(o@, b@, g@);
    }
    let found = conflicts(&ctx, &edits_a, &edits_b);
    proof {
        assert(diff_shaped(o@, a@, f@) && diff_shaped(o@, b@, g@));
    }
    if found.len() > 0 {
        let r = Ok(MergeOutcome::Conflicts(found));
        proof {
            assert(merge_decided(o@, a@, b@, f@, g@, name_fields@, r));
        }
        return r;
    }

    let mut builder = Builder {
        o,
        a,
        b,
        f: &f,
        g: &g,
        nodes: Vec::new(),
        placed: falses(o.node_count()),
        consumed: falses(o.node_count()),
    };
    proof {
        assert(view_merged_nodes(builder.nodes@) =~= Seq::<(Origin, Seq<MergedId>)>::empty());
    }
    let ghost initial = builder;
    let root = builder.build_survivor(o.root());
    let ghost built = builder;
    proof {
        assert(f@.fwd[0] == Some(NodeId(0)));
        assert(g@.fwd[0] == Some(NodeId(0)));
        assert forall|i: int|
            #![trigger built.placed@[i]]
            0 <= i < built.placed@.len() && built.placed@[i] implies built.finished(NodeId(i as usize)) by {
            assert(!initial.placed@[i]);
        }
        let mv = MergedView { nodes: view_merged_nodes(built.nodes@), root: MergedId(0) };
        assert forall|x: NodeId| o@.valid(x) && #[trigger] kept_by_both(f@, g@, x) implies exists|j: int|
            0 <= j < mv.nodes.len() && #[trigger] copy_of(mv.nodes[j].0, f@, g@, x) by {
            lemma_survivors_placed(built, x);
            assert(built.finished(x));
            let j = choose|j: int|
                0 <= j < built.nodes@.len() && built.survivor_origin(x, #[trigger] view_merged_nodes(built.nodes@)[j].0);
            assert(copy_of(mv.nodes[j].0, f@, g@, x));
        }
    }
    let mut merged = MergedTree { nodes: builder.nodes, root };
    proof {
        let v = merged@;
        assert(v.nodes == view_merged_nodes(built.nodes@));
        assert(v.root == root);
        assert forall|i: int| 0 <= i < v.nodes.len() && i != v.root.0 implies #[trigger] v.has_parent(i) by {
            assert(built.linked(i));
            let j = choose|j: int|
                i < j < built.nodes@.len() && #[trigger] view_merged_nodes(built.nodes@)[j].1.contains(
                    MergedId(i as usize),
                );
            assert(v.nodes[j] == view_merged_nodes(built.nodes@)[j]);
            assert(v.nodes[j].1.contains(MergedId(i as usize)));
        }
        assert(v.connected());
    }
    // The grammar backstop would run here: individually clean edits can
    // still combine into a structurally invalid tree.
    let ghost before = merged@;
    prefer_reformatted_origins(&mut merged, o, (a, &f, &edits_a), (b, &g, &edits_b));
    proof {
        assert(merged@.nodes[merged@.root.0 as int].0 == merged@.origin(merged@.root));
        assert(before.nodes[before.root.0 as int].0 == before.origin(before.root));
        lemma_final_origins(before.nodes, merged@.nodes, o@, a@, b@, f@, g@);
        assert forall|i: int| 0 <= i < merged@.nodes.len() && i != merged@.root.0 implies #[trigger] merged@.has_parent(i) by {
            assert(before.has_parent(i));
            let j = choose|j: int| 0 <= j < before.nodes.len() && #[trigger] before.nodes[j].1.contains(MergedId(i as usize));
            assert(merged@.nodes[j].1 == before.nodes[j].1);
            assert(merged@.nodes[j].1.contains(MergedId(i as usize)));
        }
        assert(merged@.connected());
        assert((MergedView { nodes: merged@.nodes, root: MergedId(0) }).from_inputs(o@, a@, b@, f@, g@));
        assert(merged@.from_inputs(o@, a@, b@, f@, g@));
        assert((MergedView { nodes: merged@.nodes, root: MergedId(0) }).keeps_survivors(o@, f@, g@));
        assert(merged@.keeps_survivors(o@, f@, g@));
    }
    let r = Ok(MergeOutcome::Merged(merged));
    proof {
        assert(merge_decided(o@, a@, b@, f@, g@, name_fields@, r));
    }
    r
}

/// The self-check conflict reporting one violation: the witness span in
/// the slot of the tree it lives in (M has no slot).
fn self_check_conflict(violation: &Violation) -> (c: Conflict)
    ensures
        c.rule@ == "self-check"@,
        c.span_o == (match *violation {
            Violation::ExtraDeletion { span, .. } => Some(span),
            Violation::MissedDeletion { span, .. } => Some(span),
            _ => None,
        }),
        c.span_a == (match *violation {
            Violation::MissedInsertion { branch: CheckBranch::A, span, .. } => Some(span),
            Violation::MissedRelabel { branch: CheckBranch::A, span, .. } => Some(span),
            _ => None,
        }),
        c.span_b == (match *violation {
            Violation::MissedInsertion { branch: CheckBranch::B, span, .. } => Some(span),
            Violation::MissedRelabel { branch: CheckBranch::B, span, .. } => Some(span),
            _ => None,
        }),
{
    let (span_o, span_a, span_b) = match violation {
        Violation::ExtraDeletion { span, .. } => (Some(span.start..span.end), None, None),
        Violation::MissedDeletion { span, .. } => (Some(span.start..span.end), None, None),
        Violation::MissedInsertion { branch: CheckBranch::A, span, .. } => (None, Some(span.start..span.end), None),
        Violation::MissedInsertion { branch: CheckBranch::B, span, .. } => (None, None, Some(span.start..span.end)),
        Violation::MissedRelabel { branch: CheckBranch::A, span, .. } => (None, Some(span.start..span.end), None),
        Violation::MissedRelabel { branch: CheckBranch::B, span, .. } => (None, None, Some(span.start..span.end)),
        // The witness lives in M, which has no span slot.
        Violation::ExtraInsertion { .. } => (None, None, None),
    };
    proof {
        reveal_strlit("self-check");
    }
    Conflict { span_o, span_a, span_b, rule: "self-check" }
}

/// Merges A and B against O all the way to output text, self-checking
/// the result before handing it over: the synthesized text must
/// re-parse cleanly and the re-parsed tree must pass the universality
/// checker against the inputs.
///
/// A self-check failure means a bug, not a user problem — it is
/// surfaced as `self-check` pseudo-conflicts so the user still gets a
/// safe (conflicted) outcome instead of a silently wrong merge.
pub fn merge_to_text(o: &Tree, a: &Tree, b: &Tree) -> (r: Result<MergeResult, Error>)
    ensures
        r is Ok,
        r matches Ok(MergeResult::Conflicts(cs)) ==> cs@.len() > 0,
        r matches Ok(MergeResult::Merged(text)) ==> passes_self_check(o@, a@, b@, text@),
        exists|f: MatchingView, g: MatchingView|
            #![trigger diff_shaped(o@, a@, f), diff_shaped(o@, b@, g)]
            diff_shaped(o@, a@, f) && diff_shaped(o@, b@, g) && text_decided(o@, a@, b@, f, g, name_fields_for(o@.lang), r),
        r matches Ok(MergeResult::Merged(text)) ==> exists|m: MergedView|
            m.wf() && m.origins_valid(o@, a@, b@) && text@ == #[trigger] crate::synth::rendered(m, o@, a@, b@),
        r matches Ok(MergeResult::Conflicts(cs)) ==> reported_by_rules(o@, a@, b@, cs@) || exists|m: MergedView|
            m.wf() && m.origins_valid(o@, a@, b@) && self_check_reports(o@, a@, b@, #[trigger] crate::synth::rendered(m, o@, a@, b@), cs@),
{
    let r = merge_to_text_with(o, a, b, crate::synth::synthesize);
    proof {
        if r is Ok && r->Ok_0 is Conflicts {
            let cs = r->Ok_0->Conflicts_0;
            if !reported_by_rules(o@, a@, b@, cs@) {
                let (m, text) = choose|m: MergedTree, text: String|
                    m@.wf() && m@.origins_valid(o@, a@, b@) && #[trigger] call_ensures(crate::synth::synthesize, (&m, o, a, b), text)
                        && self_check_reports(o@, a@, b@, text@, cs@);
                assert(text@ == crate::synth::rendered(m@, o@, a@, b@));
            }
        }
        if r is Ok && r->Ok_0 is Merged {
            let text = r->Ok_0->Merged_0;
            let m = choose|m: MergedTree|
                m@.wf() && m@.origins_valid(o@, a@, b@) && #[trigger] call_ensures(
                    crate::synth::synthesize,
                    (&m, o, a, b),
                    text,
                );
            assert(text@ == crate::synth::rendered(m@, o@, a@, b@));
        }
    }
    r
}

/// `text` parses (in O's language) with no error or missing node, and
/// the tree lifted from that parse passes the universality checker under
/// some fitting diffs.
pub open spec fn passes_self_check(o: TreeView, a: TreeView, b: TreeView, text: Seq<char>) -> bool {
    exists|m: TreeView, f: MatchingView, g: MatchingView, i1: MatchingView, i2: MatchingView|
        reparsed_as(o.lang, text, m) && diffs_shaped(o, a, b, m, f, g, i1, i2) && all_violations(
            o,
            a,
            b,
            m,
            f,
            g,
            i1,
            i2,
        ).len() == 0
}

/// Under the diffs O→A and O→B that a merge computes, a rule fires and
/// `cs` are exactly its findings.
pub open spec fn reported_by_rules(o: TreeView, a: TreeView, b: TreeView, cs: Seq<Conflict>) -> bool {
    exists|f: MatchingView, g: MatchingView|
        #![trigger diff_shaped(o, a, f), diff_shaped(o, b, g)]
        diff_shaped(o, a, f) && diff_shaped(o, b, g) && rules_fire(
            CtxView { o, a, b, f, g, name_fields: name_fields_for(o.lang) },
            edit_script(o, a, f),
            edit_script(o, b, g),
        ) && reports_findings(
            CtxView { o, a, b, f, g, name_fields: name_fields_for(o.lang) },
            edit_script(o, a, f),
            edit_script(o, b, g),
            cs,
        )
}

/// `c` is the `self-check` conflict that reports `v`, its witness span
/// in the slot of the tree the witness lives in (the merged tree has no
/// slot).
pub open spec fn reports_violation(v: ViolationView, c: Conflict) -> bool {
    let slot = |r: Option<Range<usize>>| r matches Some(x) && x.start == v.span.0 && x.end == v.span.1;
    &&& c.rule@ == "self-check"@
    &&& (v.condition == 3 || v.condition == 4) <==> c.span_o is Some
    &&& (v.condition == 3 || v.condition == 4) ==> slot(c.span_o)
    &&& ((v.condition == 2 || v.condition == 5) && v.branch == Some(CheckBranch::A)) <==> c.span_a is Some
    &&& ((v.condition == 2 || v.condition == 5) && v.branch == Some(CheckBranch::A)) ==> slot(c.span_a)
    &&& ((v.condition == 2 || v.condition == 5) && v.branch == Some(CheckBranch::B)) <==> c.span_b is Some
    &&& ((v.condition == 2 || v.condition == 5) && v.branch == Some(CheckBranch::B)) ==> slot(c.span_b)
}

/// The `self-check` conflicts `cs` a synthesized `text` earns: one
/// conflict with no span when the text's parse holds an error or missing
/// node, or else one conflict per universality violation of the
/// tree lifted from its parse, under some fitting diffs, in the
/// checker's order.
pub open spec fn self_check_reports(o: TreeView, a: TreeView, b: TreeView, text: Seq<char>, cs: Seq<Conflict>) -> bool {
    ||| !crate::cst::error_free(o.lang.spec_name(), text) && cs.len() == 1 && cs[0].rule@ == "self-check"@
        && cs[0].span_o is None && cs[0].span_a is None && cs[0].span_b is None
    ||| exists|m: TreeView, f: MatchingView, g: MatchingView, i1: MatchingView, i2: MatchingView|
        #![trigger reparsed_as(o.lang, text, m), all_violations(o, a, b, m, f, g, i1, i2)]
        reparsed_as(o.lang, text, m) && diffs_shaped(o, a, b, m, f, g, i1, i2) && all_violations(o, a, b, m, f, g, i1, i2).len()
            == cs.len() && cs.len() > 0 && forall|k: int|
            0 <= k < cs.len() ==> reports_violation(
                #[trigger] all_violations(o, a, b, m, f, g, i1, i2)[k],
                cs[k],
            )
}

/// The grammar's field numbers of the fields that name an element:
/// `name` (declarations) and `key` (object pairs), where it has them.
pub open spec fn name_fields_for(lang: Lang) -> Seq<u16> {
    let by_name = crate::cst::grammar_field_id(lang.spec_name(), "name"@);
    let by_key = crate::cst::grammar_field_id(lang.spec_name(), "key"@);
    (if by_name is Some {
        seq![by_name.unwrap()]
    } else {
        Seq::<u16>::empty()
    }) + (if by_key is Some {
        seq![by_key.unwrap()]
    } else {
        Seq::<u16>::empty()
    })
}

/// How a text merge decides, given the diffs O→A and O→B it computed:
/// when a rule fires the conflicts are exactly its findings; otherwise
/// the synthesized text either passes the self-check and is handed
/// over, or the outcome is a non-empty list of `self-check` conflicts.
pub open spec fn text_decided(
    o: TreeView,
    a: TreeView,
    b: TreeView,
    f: MatchingView,
    g: MatchingView,
    name_fields: Seq<u16>,
    r: Result<MergeResult, Error>,
) -> bool {
    let ctx = CtxView { o, a, b, f, g, name_fields };
    let edits_a = edit_script(o, a, f);
    let edits_b = edit_script(o, b, g);
    match r {
        Ok(MergeResult::Conflicts(cs)) => {
            ||| rules_fire(ctx, edits_a, edits_b) && reports_findings(ctx, edits_a, edits_b, cs@)
            ||| !rules_fire(ctx, edits_a, edits_b) && cs@.len() > 0 && forall|k: int|
                0 <= k < cs@.len() ==> (#[trigger] cs@[k]).rule@ == "self-check"@
        },
        Ok(MergeResult::Merged(text)) => !rules_fire(ctx, edits_a, edits_b) && passes_self_check(o, a, b, text@),
        Err(_) => false,
    }
}

/// [`merge_to_text`] with the synthesis step injectable, so the guard
/// can be fed defective output.
pub fn merge_to_text_with<F: Fn(&MergedTree, &Tree, &Tree, &Tree) -> String>(
    o: &Tree,
    a: &Tree,
    b: &Tree,
    synthesizer: F,
) -> (r: Result<MergeResult, Error>)
    requires
        forall|m: &MergedTree|
            m@.wf() && m@.origins_valid(o@, a@, b@) ==> call_requires(synthesizer, (m, o, a, b)),
    ensures
        r is Ok,
        r matches Ok(MergeResult::Conflicts(cs)) ==> cs@.len() > 0,
        r matches Ok(MergeResult::Merged(text)) ==> passes_self_check(o@, a@, b@, text@),
        exists|f: MatchingView, g: MatchingView|
            #![trigger diff_shaped(o@, a@, f), diff_shaped(o@, b@, g)]
            diff_shaped(o@, a@, f) && diff_shaped(o@, b@, g) && text_decided(o@, a@, b@, f, g, name_fields_for(o@.lang), r),
        r matches Ok(MergeResult::Merged(text)) ==> exists|m: MergedTree|
            m@.wf() && m@.origins_valid(o@, a@, b@) && #[trigger] call_ensures(synthesizer, (&m, o, a, b), text),
        r matches Ok(MergeResult::Conflicts(cs)) ==> reported_by_rules(o@, a@, b@, cs@) || exists|m: MergedTree, text: String|
            m@.wf() && m@.origins_valid(o@, a@, b@) && #[trigger] call_ensures(synthesizer, (&m, o, a, b), text)
                && self_check_reports(o@, a@, b@, text@, cs@),
{
    let outcome = merge(o, a, b);
    let ghost nf = name_fields_for(o@.lang);
    let ghost (f, g) = choose|f: MatchingView, g: MatchingView|
        #![trigger diff_shaped(o@, a@, f), diff_shaped(o@, b@, g)]
        diff_shaped(o@, a@, f) && diff_shaped(o@, b@, g) && merge_decided(o@, a@, b@, f, g, nf, outcome);
    let merged = match outcome {
        Ok(MergeOutcome::Merged(merged)) => merged,
        Ok(MergeOutcome::Conflicts(conflicts)) => {
            let r = Ok(MergeResult::Conflicts(conflicts));
            proof {
                assert(text_decided(o@, a@, b@, f, g, nf, r));
                assert(reported_by_rules(o@, a@, b@, conflicts@));
            }
            return r;
        },
        Err(e) => return Err(e),
    };
    let text = synthesizer(&merged, o, a, b);
    proof {
        assert(!rules_fire(CtxView { o: o@, a: a@, b: b@, f, g, name_fields: nf }, edit_script(o@, a@, f), edit_script(o@, b@, g)));
    }

    let reparsed = match Tree::parse(text.as_str(), o.lang()) {
        Ok(tree) => tree,
        Err(_) => {
            let mut conflicts: Vec<Conflict> = Vec::new();
            proof {
                reveal_strlit("self-check");
            }
            conflicts.push(Conflict { span_o: None, span_a: None, span_b: None, rule: "self-check" });
            let r = Ok(MergeResult::Conflicts(conflicts));
            proof {
                assert(conflicts@[0].rule@ == "self-check"@);
                assert(text_decided(o@, a@, b@, f, g, nf, r));
                assert(self_check_reports(o@, a@, b@, text@, conflicts@));
                assert(call_ensures(synthesizer, (&merged, o, a, b), text));
            }
            return r;
        },
    };

    let report = check(o, a, b, &reparsed);
    if !report.is_correct() {
        let mut conflicts: Vec<Conflict> = Vec::new();
        let mut k: usize = 0;
        while k < report.violations.len()
            invariant
                k <= report.violations@.len(),
                conflicts@.len() == k,
                forall|j: int| 0 <= j < k ==> (#[trigger] conflicts@[j]).rule@ == "self-check"@,
                forall|j: int|
                    0 <= j < k ==> reports_violation(
                        crate::check::violation_view(report.violations@[j]),
                        #[trigger] conflicts@[j],
                    ),
            decreases report.violations@.len() - k,
        {
            let c = self_check_conflict(&report.violations[k]);
            proof {
                assert(reports_violation(crate::check::violation_view(report.violations@[k as int]), c));
            }
            conflicts.push(c);
            k = k + 1;
        }
        proof {
            assert(report.violations@.len() > 0);
        }
        let r = Ok(MergeResult::Conflicts(conflicts));
        proof {
            assert(text_decided(o@, a@, b@, f, g, nf, r));
            use_type_invariant(&reparsed);
            assert(reparsed_as(o@.lang, text@, reparsed@));
            let (f2, g2, i1, i2) = choose|f: MatchingView, g: MatchingView, i1: MatchingView, i2: MatchingView|
                diffs_shaped(o@, a@, b@, reparsed@, f, g, i1, i2) && crate::check::violations_view(report.violations@)
                    == all_violations(o@, a@, b@, reparsed@, f, g, i1, i2);
            let vs = all_violations(o@, a@, b@, reparsed@, f2, g2, i1, i2);
            assert forall|j: int| 0 <= j < conflicts@.len() implies reports_violation(#[trigger] vs[j], conflicts@[j]) by {
                assert(vs[j] == crate::check::violation_view(report.violations@[j]));
            }
            assert(self_check_reports(o@, a@, b@, text@, conflicts@));
            assert(call_ensures(synthesizer, (&merged, o, a, b), text));
        }
        return r;
    }
    proof {
        let (f, g, i1, i2) = choose|f: MatchingView, g: MatchingView, i1: MatchingView, i2: MatchingView|
            diffs_shaped(o@, a@, b@, reparsed@, f, g, i1, i2) && crate::check::violations_view(report.violations@)
                == all_violations(o@, a@, b@, reparsed@, f, g, i1, i2);
        assert(crate::check::violations_view(report.violations@).len() == 0);
        use_type_invariant(&reparsed);
        assert(reparsed_as(o@.lang, text@, reparsed@));
        assert(passes_self_check(o@, a@, b@, text@));
    }
    let r = Ok(MergeResult::Merged(text));
    proof {
        assert(text_decided(o@, a@, b@, f, g, nf, r));
    }
    r
}

/// The text, ending in a newline: unchanged when empty or already
/// newline-terminated.
pub open spec fn terminated(s: Seq<char>) -> Seq<char> {
    if s.len() == 0 || s.last() == '\n' {
        s
    } else {
        s + seq!['\n']
    }
}

/// Whole-file diff3-style conflict markers.
pub open spec fn spec_diff3(o: Seq<char>, a: Seq<char>, b: Seq<char>) -> Seq<char> {
    "<<<<<<< A\n"@ + terminated(a) + "||||||| O\n"@ + terminated(o) + "=======\n"@ + terminated(b)
        + ">>>>>>> B\n"@
}

/// The newline that `terminated` adds: one when the text is non-empty and
/// does not already end in a newline, none otherwise.
pub open spec fn added_newline(s: Seq<char>) -> nat {
    if s.len() > 0 && s.last() != '\n' {
        1
    } else {
        0
    }
}

/// Layout of the diff3 markers, read off the arguments: the A marker line,
/// then all of `a`, then (past `a`'s closing newline) the O marker line and
/// all of `o`, then the separator and all of `b`, then the B marker line.
/// Each text keeps every character, and a text that is non-empty and lacks a
/// closing newline gets exactly one.
pub proof fn lemma_diff3_layout(o: Seq<char>, a: Seq<char>, b: Seq<char>)
    ensures
        ({
            let r = spec_diff3(o, a, b);
            let pa: int = 10;
            let po: int = pa + a.len() + added_newline(a) + 10;
            let pb: int = po + o.len() + added_newline(o) + 8;
            let pe: int = pb + b.len() + added_newline(b);
            &&& r.len() == pe + 10
            &&& r.subrange(0, pa) == "<<<<<<< A\n"@
            &&& r.subrange(pa, pa + a.len()) == a
            &&& (added_newline(a) == 1 ==> r[pa + a.len()] == '\n')
            &&& r.subrange(po - 10, po) == "||||||| O\n"@
            &&& r.subrange(po, po + o.len()) == o
            &&& (added_newline(o) == 1 ==> r[po + o.len()] == '\n')
            &&& r.subrange(pb - 8, pb) == "=======\n"@
            &&& r.subrange(pb, pb + b.len()) == b
            &&& (added_newline(b) == 1 ==> r[pb + b.len()] == '\n')
            &&& r.subrange(pe, pe + 10) == ">>>>>>> B\n"@
        }),
{
    reveal_strlit("<<<<<<< A\n");
    reveal_strlit("||||||| O\n");
    reveal_strlit("=======\n");
    reveal_strlit(">>>>>>> B\n");
    let r = spec_diff3(o, a, b);
    let m1 = "<<<<<<< A\n"@;
    let m2 = "||||||| O\n"@;
    let m3 = "=======\n"@;
    let m4 = ">>>>>>> B\n"@;
    let ta = terminated(a);
    let to = terminated(o);
    let tb = terminated(b);
    assert(ta.len() == a.len() + added_newline(a));
    assert(to.len() == o.len() + added_newline(o));
    assert(tb.len() == b.len() + added_newline(b));
    assert(ta.subrange(0, a.len() as int) =~= a);
    assert(to.subrange(0, o.len() as int) =~= o);
    assert(tb.subrange(0, b.len() as int) =~= b);
    let pa: int = 10;
    let po: int = pa + ta.len() + 10;
    let pb: int = po + to.len() + 8;
    let pe: int = pb + tb.len();
    assert(r =~= m1 + ta + m2 + to + m3 + tb + m4);
    assert(r.subrange(0, pa) =~= m1);
    assert(r.subrange(pa, pa + ta.len()) =~= ta);
    assert(r.subrange(po - 10, po) =~= m2);
    assert(r.subrange(po, po + to.len()) =~= to);
    assert(r.subrange(pb - 8, pb) =~= m3);
    assert(r.subrange(pb, pb + tb.len()) =~= tb);
    assert(r.subrange(pe, pe + 10) =~= m4);
    assert(r.subrange(pa, pa + a.len()) =~= a) by {
        assert(r.subrange(pa, pa + a.len()) =~= r.subrange(pa, pa + ta.len()).subrange(0, a.len() as int));
    }
    assert(r.subrange(po, po + o.len()) =~= o) by {
        assert(r.subrange(po, po + o.len()) =~= r.subrange(po, po + to.len()).subrange(0, o.len() as int));
    }
    assert(r.subrange(pb, pb + b.len()) =~= b) by {
        assert(r.subrange(pb, pb + b.len()) =~= r.subrange(pb, pb + tb.len()).subrange(0, b.len() as int));
    }
    if added_newline(a) == 1 {
        assert(r[pa + a.len()] == r.subrange(pa, pa + ta.len())[a.len() as int]);
    }
    if added_newline(o) == 1 {
        assert(r[po + o.len()] == r.subrange(po, po + to.len())[o.len() as int]);
    }
    if added_newline(b) == 1 {
        assert(r[pb + b.len()] == r.subrange(pb, pb + tb.len())[b.len() as int]);
    }
}

fn push_terminated(out: &mut String, s: &str)
    ensures
        final(out)@ == old(out)@ + terminated(s@),
{
    out.append(s);
    let n = s.unicode_len();
    if n > 0 && s.get_char(n - 1) != '\n' {
        proof {
            reveal_strlit("\n");
        }
        out.append("\n");
    }
}

/// Whole-file diff3-style markers: A's text, then O's, then B's, each
/// newline-terminated, between the conflict marker lines.
pub fn diff3(o: &str, a: &str, b: &str) -> (r: String)
    ensures
        r@ == spec_diff3(o@, a@, b@),
{
    let mut out = String::new();
    out.append("<<<<<<< A\n");
    push_terminated(&mut out, a);
    out.append("||||||| O\n");
    push_terminated(&mut out, o);
    out.append("=======\n");
    push_terminated(&mut out, b);
    out.append(">>>>>>> B\n");
    proof {
        assert(out@ =~= spec_diff3(o@, a@, b@));
    }
    out
}

} // verus!
