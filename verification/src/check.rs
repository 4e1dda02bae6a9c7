//! The universality checker: the oracle that decides whether a merge M
//! of (O, A, B) is the pushout the correctness criterion demands — every branch edit
//! lands, nothing else does.
//!
//! Fidelity is bounded by diff quality (any diff-based criterion carries the same
//! caveat): the four conditions are set-membership statements over the
//! diffs f: O→A, g: O→B, i1: A→M, i2: B→M.

use std::ops::Range;

use vstd::prelude::*;

use crate::diff::{diff, diff_shaped, Matching, MatchingView};
use crate::text::opt_str_eq;
use crate::tree::{NodeId, Tree, TreeView};

verus! {

/// Which branch a violation's witness lives in.
#[derive(Debug, Clone, Copy, PartialEq, Eq, Structural)]
pub enum Branch {
    A,
    B,
}

/// One universality violation, with the witness node and its span in
/// the tree named by the variant (M, a branch, or O).
#[derive(Debug, PartialEq, Eq)]
pub enum Violation {
    /// A merge node that comes from neither branch.
    ExtraInsertion { node: NodeId, span: Range<usize> },
    /// A node a branch inserted that the merge dropped.
    MissedInsertion { branch: Branch, node: NodeId, span: Range<usize> },
    /// An O node both branches kept that the merge lost.
    ExtraDeletion { node: NodeId, span: Range<usize> },
    /// An O node a branch deleted that the merge kept.
    MissedDeletion { node: NodeId, span: Range<usize> },
    /// A node a branch relabeled that reaches the merge with another
    /// label; the witness is the branch's node.
    MissedRelabel { branch: Branch, node: NodeId, span: Range<usize> },
}

/// A violation as the specifications see it: which condition, the
/// branch (for missed insertions), the witness, and its span.
pub struct ViolationView {
    pub condition: int,
    pub branch: Option<Branch>,
    pub node: NodeId,
    pub span: (int, int),
}

pub open spec fn violation_view(v: Violation) -> ViolationView {
    match v {
        Violation::ExtraInsertion { node, span } => ViolationView {
            condition: 1,
            branch: None,
            node,
            span: (span.start as int, span.end as int),
        },
        Violation::MissedInsertion { branch, node, span } => ViolationView {
            condition: 2,
            branch: Some(branch),
            node,
            span: (span.start as int, span.end as int),
        },
        Violation::ExtraDeletion { node, span } => ViolationView {
            condition: 3,
            branch: None,
            node,
            span: (span.start as int, span.end as int),
        },
        Violation::MissedDeletion { node, span } => ViolationView {
            condition: 4,
            branch: None,
            node,
            span: (span.start as int, span.end as int),
        },
        Violation::MissedRelabel { branch, node, span } => ViolationView {
            condition: 5,
            branch: Some(branch),
            node,
            span: (span.start as int, span.end as int),
        },
    }
}

pub open spec fn violations_view(vs: Seq<Violation>) -> Seq<ViolationView> {
    vs.map_values(|v: Violation| violation_view(v))
}

/// The checker's verdict on one (O, A, B, M) quadruple.
#[derive(Debug)]
pub struct Report {
    /// Whether M parsed at all. [`check`] itself always sets this;
    /// the merge pipeline reports an unparsable synthesis by hand.
    pub parsable: bool,
    pub violations: Vec<Violation>,
}

impl Report {
    /// A correct merge: parsable with no violations.
    pub fn is_correct(&self) -> (r: bool)
        ensures
            r == (self.parsable && self.violations@.len() == 0),
    {
        self.parsable && self.violations.len() == 0
    }
}

/// Anonymous tokens under a commutative parent are fungible separators,
/// exempt from all four conditions.
pub open spec fn fungible(t: TreeView, node: NodeId) -> bool {
    &&& !t.named(node)
    &&& t.parent(node) matches Some(p)
    &&& t.lang.spec_is_commutative(t.node(p).kind)
}

/// A node's span as a pair of integers.
pub open spec fn span_pair(t: TreeView, node: NodeId) -> (int, int) {
    (t.node(node).start, t.node(node).end)
}

/// Condition 1 over M's first `n` nodes: every checked M node has a
/// preimage under i1 or i2.
pub open spec fn extra_insertions(m: TreeView, i1: MatchingView, i2: MatchingView, n: int) -> Seq<ViolationView>
    decreases n,
{
    if n <= 0 {
        seq![]
    } else {
        let node = NodeId((n - 1) as usize);
        let rest = extra_insertions(m, i1, i2, n - 1);
        if !fungible(m, node) && i1.preimage(node) is None && i2.preimage(node) is None {
            rest.push(ViolationView { condition: 1, branch: None, node, span: span_pair(m, node) })
        } else {
            rest
        }
    }
}

/// Condition 2 for one branch over its first `n` nodes: every checked
/// node the branch inserted has an image in M.
pub open spec fn missed_insertions_of(
    t: TreeView,
    from_o: MatchingView,
    to_m: MatchingView,
    branch: Branch,
    n: int,
) -> Seq<ViolationView>
    decreases n,
{
    if n <= 0 {
        seq![]
    } else {
        let node = NodeId((n - 1) as usize);
        let rest = missed_insertions_of(t, from_o, to_m, branch, n - 1);
        if !fungible(t, node) && from_o.preimage(node) is None && to_m.image(node) is None {
            rest.push(ViolationView { condition: 2, branch: Some(branch), node, span: span_pair(t, node) })
        } else {
            rest
        }
    }
}

/// Condition 3 over O's first `n` nodes: a checked node both branches
/// kept reaches M through both routes, at the same node.
pub open spec fn extra_deletions(
    o: TreeView,
    f: MatchingView,
    g: MatchingView,
    i1: MatchingView,
    i2: MatchingView,
    n: int,
) -> Seq<ViolationView>
    decreases n,
{
    if n <= 0 {
        seq![]
    } else {
        let node = NodeId((n - 1) as usize);
        let rest = extra_deletions(o, f, g, i1, i2, n - 1);
        let commutes = match (f.image(node), g.image(node)) {
            (Some(x), Some(y)) => i1.image(x) is Some && i2.image(y) is Some && i1.image(x) == i2.image(y),
            _ => true,
        };
        if !fungible(o, node) && !commutes {
            rest.push(ViolationView { condition: 3, branch: None, node, span: span_pair(o, node) })
        } else {
            rest
        }
    }
}

/// Condition 4 over O's first `n` nodes: a checked node one branch
/// deleted does not reach M through the other.
pub open spec fn missed_deletions(
    o: TreeView,
    f: MatchingView,
    g: MatchingView,
    i1: MatchingView,
    i2: MatchingView,
    n: int,
) -> Seq<ViolationView>
    decreases n,
{
    if n <= 0 {
        seq![]
    } else {
        let node = NodeId((n - 1) as usize);
        let rest = missed_deletions(o, f, g, i1, i2, n - 1);
        let reaches = match (f.image(node), g.image(node)) {
            (None, Some(via)) => i2.image(via) is Some,
            (Some(via), None) => i1.image(via) is Some,
            _ => false,
        };
        if !fungible(o, node) && reaches {
            rest.push(ViolationView { condition: 4, branch: None, node, span: span_pair(o, node) })
        } else {
            rest
        }
    }
}

/// Condition 5 for one branch over O's first `n` nodes: an O node the
/// branch relabeled reaches M, through the branch, with the branch's
/// label.
pub open spec fn missed_relabels_of(
    o: TreeView,
    t: TreeView,
    m: TreeView,
    from_o: MatchingView,
    to_m: MatchingView,
    branch: Branch,
    n: int,
) -> Seq<ViolationView>
    decreases n,
{
    if n <= 0 {
        seq![]
    } else {
        let x = NodeId((n - 1) as usize);
        let rest = missed_relabels_of(o, t, m, from_o, to_m, branch, n - 1);
        match from_o.image(x) {
            Some(y) => if t.label(y) != o.label(x) && (to_m.image(y) matches Some(z) && m.label(z) != t.label(y)) {
                rest.push(ViolationView { condition: 5, branch: Some(branch), node: y, span: span_pair(t, y) })
            } else {
                rest
            },
            None => rest,
        }
    }
}

/// Every violation of the conditions under the given diffs, in
/// condition order (missed relabels after the four universality
/// conditions, A's before B's), each condition's witnesses in pre-order.
pub open spec fn all_violations(
    o: TreeView,
    a: TreeView,
    b: TreeView,
    m: TreeView,
    f: MatchingView,
    g: MatchingView,
    i1: MatchingView,
    i2: MatchingView,
) -> Seq<ViolationView> {
    extra_insertions(m, i1, i2, m.len() as int) + missed_insertions_of(a, f, i1, Branch::A, a.len() as int)
        + missed_insertions_of(b, g, i2, Branch::B, b.len() as int) + extra_deletions(
        o,
        f,
        g,
        i1,
        i2,
        o.len() as int,
    ) + missed_deletions(o, f, g, i1, i2, o.len() as int) + missed_relabels_of(o, a, m, f, i1, Branch::A, o.len() as int)
        + missed_relabels_of(o, b, m, g, i2, Branch::B, o.len() as int)
}

/// The four diffs fit their trees.
pub open spec fn diffs_fit(
    o: TreeView,
    a: TreeView,
    b: TreeView,
    m: TreeView,
    f: MatchingView,
    g: MatchingView,
    i1: MatchingView,
    i2: MatchingView,
) -> bool {
    &&& f.wf() && f.fits(o, a)
    &&& g.wf() && g.fits(o, b)
    &&& i1.wf() && i1.fits(a, m)
    &&& i2.wf() && i2.fits(b, m)
}

proof fn lemma_view_split(s: Seq<Violation>, k: int)
    requires
        0 <= k <= s.len(),
    ensures
        violations_view(s) == violations_view(s.subrange(0, k)) + violations_view(s.subrange(k, s.len() as int)),
{
    assert(violations_view(s) =~= violations_view(s.subrange(0, k)) + violations_view(s.subrange(k, s.len() as int)));
}

/// The four diffs have the shape [`diff`] gives every matching: each
/// fits its two trees, pairs their roots, and pairs nodes of one kind
/// below them.
pub open spec fn diffs_shaped(
    o: TreeView,
    a: TreeView,
    b: TreeView,
    m: TreeView,
    f: MatchingView,
    g: MatchingView,
    i1: MatchingView,
    i2: MatchingView,
) -> bool {
    &&& diffs_fit(o, a, b, m, f, g, i1, i2)
    &&& diff_shaped(o, a, f)
    &&& diff_shaped(o, b, g)
    &&& diff_shaped(a, m, i1)
    &&& diff_shaped(b, m, i2)
}

/// Checks M against the four universality conditions.
pub fn check(o: &Tree, a: &Tree, b: &Tree, m: &Tree) -> (r: Report)
    ensures
        r.parsable,
        exists|f: MatchingView, g: MatchingView, i1: MatchingView, i2: MatchingView|
            diffs_shaped(o@, a@, b@, m@, f, g, i1, i2) && violations_view(r.violations@) == all_violations(
                o@,
                a@,
                b@,
                m@,
                f,
                g,
                i1,
                i2,
            ),
{
    let f = diff(o, a);
    let g = diff(o, b);
    let i1 = diff(a, m);
    let i2 = diff(b, m);
    check_with(o, a, b, m, &f, &g, &i1, &i2)
}

/// [`check`] under given diffs f: O→A, g: O→B, i1: A→M, i2: B→M.
pub fn check_with(
    o: &Tree,
    a: &Tree,
    b: &Tree,
    m: &Tree,
    f: &Matching,
    g: &Matching,
    i1: &Matching,
    i2: &Matching,
) -> (r: Report)
    requires
        diffs_fit(o@, a@, b@, m@, f@, g@, i1@, i2@),
    ensures
        r.parsable,
        violations_view(r.violations@) == all_violations(o@, a@, b@, m@, f@, g@, i1@, i2@),
{
    let mut violations: Vec<Violation> = Vec::new();

    // 1. No extra insertion: every M node has a preimage under i1 or
    //    i2 — it came from somewhere.
    let n = m.node_count();
    let mut i: usize = 0;
    while i < n
        invariant
            n == m@.len(),
            i <= n,
            i1@.fits(a@, m@),
            i2@.fits(b@, m@),
            violations_view(violations@) == extra_insertions(m@, i1@, i2@, i as int),
        decreases n - i,
    {
        let node = NodeId(i);
        let ghost before = violations@;
        if !fungible_separator(m, node) && i1.preimage(node).is_none() && i2.preimage(node).is_none() {
            violations.push(Violation::ExtraInsertion { node, span: m.span(node) });
            proof {
                assert(violations_view(violations@) =~= violations_view(before).push(
                    violation_view(violations@.last()),
                ));
            }
        }
        i = i + 1;
        proof {
            assert(violations_view(violations@) =~= extra_insertions(m@, i1@, i2@, i as int));
        }
    }

    // 2. No missed insertion: every node a branch inserted reaches M.
    let ghost part1 = violations@;
    missed_insertions(a, f, i1, Branch::A, &mut violations);
    let ghost part2 = violations@;
    missed_insertions(b, g, i2, Branch::B, &mut violations);
    let ghost part3 = violations@;

    // 3. No extra deletion: an O node both branches kept must reach M
    //    through both routes, and the routes must agree (i1∘f = i2∘g).
    let n = o.node_count();
    let mut i: usize = 0;
    while i < n
        invariant
            n == o@.len(),
            i <= n,
            diffs_fit(o@, a@, b@, m@, f@, g@, i1@, i2@),
            violations@.subrange(0, part3.len() as int) == part3,
            violations@.len() >= part3.len(),
            violations_view(violations@.subrange(part3.len() as int, violations@.len() as int))
                == extra_deletions(o@, f@, g@, i1@, i2@, i as int),
        decreases n - i,
    {
        let node = NodeId(i);
        let ghost before = violations@;
        if !fungible_separator(o, node) {
            if let (Some(in_a), Some(in_b)) = (f.image(node), g.image(node)) {
                proof {
                    assert(f@.fwd[i as int] == Some(in_a));
                    assert(g@.fwd[i as int] == Some(in_b));
                }
                let via_a = i1.image(in_a);
                let via_b = i2.image(in_b);
                let commutes = match (via_a, via_b) {
                    (Some(x), Some(y)) => x == y,
                    _ => false,
                };
                if !commutes {
                    violations.push(Violation::ExtraDeletion { node, span: o.span(node) });
                }
            }
        }
        i = i + 1;
        proof {
            assert(violations@.subrange(0, part3.len() as int) =~= part3) by {
                assert forall|k: int| 0 <= k < part3.len() implies violations@[k] == part3[k] by {
                    assert(violations@[k] == before[k]);
                    assert(before.subrange(0, part3.len() as int)[k] == part3[k]);
                }
            }
            assert(violations_view(violations@.subrange(part3.len() as int, violations@.len() as int))
                =~= extra_deletions(o@, f@, g@, i1@, i2@, i as int)) by {
                let now = violations@.subrange(part3.len() as int, violations@.len() as int);
                let was = before.subrange(part3.len() as int, before.len() as int);
                assert forall|k: int| 0 <= k < was.len() implies now[k] == was[k] by {
                    assert(now[k] == violations@[part3.len() + k]);
                    assert(violations@[part3.len() + k] == before[part3.len() + k]);
                }
                if violations@.len() > before.len() {
                    assert(now =~= was.push(violations@.last()));
                } else {
                    assert(now =~= was);
                }
            }
        }
    }
    let ghost part4 = violations@;

    // 4. No missed deletion: an O node one branch deleted must not
    //    sneak into M through the other branch.
    let mut i: usize = 0;
    while i < n
        invariant
            n == o@.len(),
            i <= n,
            diffs_fit(o@, a@, b@, m@, f@, g@, i1@, i2@),
            violations@.subrange(0, part4.len() as int) == part4,
            violations@.len() >= part4.len(),
            violations_view(violations@.subrange(part4.len() as int, violations@.len() as int))
                == missed_deletions(o@, f@, g@, i1@, i2@, i as int),
        decreases n - i,
    {
        let node = NodeId(i);
        let ghost before = violations@;
        if !fungible_separator(o, node) {
            let fa = f.image(node);
            let gb = g.image(node);
            proof {
                if let Some(via) = fa {
                    assert(f@.fwd[i as int] == Some(via));
                }
                if let Some(via) = gb {
                    assert(g@.fwd[i as int] == Some(via));
                }
            }
            let reaches = match (fa, gb) {
                (None, Some(via)) => i2.image(via).is_some(),
                (Some(via), None) => i1.image(via).is_some(),
                _ => false,
            };
            if reaches {
                violations.push(Violation::MissedDeletion { node, span: o.span(node) });
            }
        }
        i = i + 1;
        proof {
            assert(violations@.subrange(0, part4.len() as int) =~= part4) by {
                assert forall|k: int| 0 <= k < part4.len() implies violations@[k] == part4[k] by {
                    assert(violations@[k] == before[k]);
                    assert(before.subrange(0, part4.len() as int)[k] == part4[k]);
                }
            }
            assert(violations_view(violations@.subrange(part4.len() as int, violations@.len() as int))
                =~= missed_deletions(o@, f@, g@, i1@, i2@, i as int)) by {
                let now = violations@.subrange(part4.len() as int, violations@.len() as int);
                let was = before.subrange(part4.len() as int, before.len() as int);
                assert forall|k: int| 0 <= k < was.len() implies now[k] == was[k] by {
                    assert(now[k] == violations@[part4.len() + k]);
                    assert(violations@[part4.len() + k] == before[part4.len() + k]);
                }
                if violations@.len() > before.len() {
                    assert(now =~= was.push(violations@.last()));
                } else {
                    assert(now =~= was);
                }
            }
        }
    }
    proof {
        let v = violations@;
        lemma_view_split(v, part4.len() as int);
        lemma_view_split(part4, part3.len() as int);
        assert(v.subrange(0, part4.len() as int) == part4);
    }
    let ghost part5 = violations@;

    // 5. No missed relabel: a relabel a branch made reaches M.
    missed_relabels(o, a, m, f, i1, Branch::A, &mut violations);
    missed_relabels(o, b, m, g, i2, Branch::B, &mut violations);
    proof {
        assert(violations_view(violations@) =~= all_violations(o@, a@, b@, m@, f@, g@, i1@, i2@));
    }
    Report { parsable: true, violations }
}

/// Anonymous tokens under a commutative parent are fungible
/// separators, exempt from all four conditions. A cross-branch union
/// merge makes their attribution ambiguous — both branches' commas
/// legitimately claim the same merged comma, orphaning its twin — and
/// the parse itself (verified before the conditions run) already pins
/// how many separators the output holds. Named nodes under the same
/// parent stay fully checked.
fn fungible_separator(tree: &Tree, node: NodeId) -> (r: bool)
    requires
        tree@.valid(node),
    ensures
        r == fungible(tree@, node),
{
    proof {
        use_type_invariant(tree);
        if node.0 == 0 {
            assert(tree@.nodes[0].parent is None);
        }
    }
    if tree.is_named(node) {
        return false;
    }
    match tree.parent(node) {
        Some(parent) => {
            proof {
                assert(tree@.nodes[node.0 as int].parent matches Some(p) && p.0 < node.0);
            }
            tree.lang().is_commutative(tree.kind(parent))
        },
        None => false,
    }
}

/// Condition 2 for one branch: nodes the branch inserted (no preimage
/// under its diff from O) must have an image in M.
fn missed_insertions(
    branch_tree: &Tree,
    from_o: &Matching,
    to_m: &Matching,
    branch: Branch,
    violations: &mut Vec<Violation>,
)
    requires
        from_o@.bwd.len() == branch_tree@.len(),
        to_m@.fwd.len() == branch_tree@.len(),
    ensures
        violations_view(final(violations)@) == violations_view(old(violations)@) + missed_insertions_of(
            branch_tree@,
            from_o@,
            to_m@,
            branch,
            branch_tree@.len() as int,
        ),
{
    let ghost start = violations@;
    let n = branch_tree.node_count();
    let mut i: usize = 0;
    while i < n
        invariant
            n == branch_tree@.len(),
            i <= n,
            from_o@.bwd.len() == branch_tree@.len(),
            to_m@.fwd.len() == branch_tree@.len(),
            violations_view(violations@) == violations_view(start) + missed_insertions_of(
                branch_tree@,
                from_o@,
                to_m@,
                branch,
                i as int,
            ),
        decreases n - i,
    {
        let node = NodeId(i);
        let ghost before = violations@;
        if !fungible_separator(branch_tree, node) && from_o.preimage(node).is_none() && to_m.image(
            node,
        ).is_none() {
            violations.push(
                Violation::MissedInsertion { branch, node, span: branch_tree.span(node) },
            );
            proof {
                assert(violations_view(violations@) =~= violations_view(before).push(
                    violation_view(violations@.last()),
                ));
            }
        }
        i = i + 1;
        proof {
            assert(violations_view(violations@) =~= violations_view(start) + missed_insertions_of(
                branch_tree@,
                from_o@,
                to_m@,
                branch,
                i as int,
            ));
        }
    }
}

/// Condition 5 for one branch: an O node the branch relabeled must
/// reach M, through the branch, with the branch's label.
fn missed_relabels(
    o: &Tree,
    branch_tree: &Tree,
    m: &Tree,
    from_o: &Matching,
    to_m: &Matching,
    branch: Branch,
    violations: &mut Vec<Violation>,
)
    requires
        from_o@.wf(),
        from_o@.fits(o@, branch_tree@),
        to_m@.wf(),
        to_m@.fits(branch_tree@, m@),
    ensures
        violations_view(final(violations)@) == violations_view(old(violations)@) + missed_relabels_of(
            o@,
            branch_tree@,
            m@,
            from_o@,
            to_m@,
            branch,
            o@.len() as int,
        ),
{
    let ghost start = violations@;
    let n = o.node_count();
    let mut i: usize = 0;
    while i < n
        invariant
            n == o@.len(),
            i <= n,
            from_o@.wf(),
            from_o@.fits(o@, branch_tree@),
            to_m@.wf(),
            to_m@.fits(branch_tree@, m@),
            violations_view(violations@) == violations_view(start) + missed_relabels_of(
                o@,
                branch_tree@,
                m@,
                from_o@,
                to_m@,
                branch,
                i as int,
            ),
        decreases n - i,
    {
        let x = NodeId(i);
        let ghost before = violations@;
        if let Some(y) = from_o.image(x) {
            proof {
                assert(from_o@.fwd[i as int] == Some(y));
            }
            if !opt_str_eq(branch_tree.label(y), o.label(x)) {
                if let Some(z) = to_m.image(y) {
                    proof {
                        assert(to_m@.fwd[y.0 as int] == Some(z));
                    }
                    if !opt_str_eq(m.label(z), branch_tree.label(y)) {
                        violations.push(Violation::MissedRelabel { branch, node: y, span: branch_tree.span(y) });
                        proof {
                            assert(violations_view(violations@) =~= violations_view(before).push(
                                violation_view(violations@.last()),
                            ));
                        }
                    }
                }
            }
        }
        i = i + 1;
        proof {
            assert(violations_view(violations@) =~= violations_view(start) + missed_relabels_of(
                o@,
                branch_tree@,
                m@,
                from_o@,
                to_m@,
                branch,
                i as int,
            ));
        }
    }
}

/// The tree a violation's witness span points into, and the span.
pub fn witness<'t>(o: &'t Tree, a: &'t Tree, b: &'t Tree, m: &'t Tree, violation: &Violation) -> (r: (
    &'t Tree,
    Range<usize>,
))
    ensures
        r.0 == (match *violation {
            Violation::ExtraInsertion { .. } => m,
            Violation::MissedInsertion { branch: Branch::A, .. } => a,
            Violation::MissedInsertion { branch: Branch::B, .. } => b,
            Violation::MissedRelabel { branch: Branch::A, .. } => a,
            Violation::MissedRelabel { branch: Branch::B, .. } => b,
            _ => o,
        }),
        (r.1.start as int, r.1.end as int) == violation_view(*violation).span,
{
    match violation {
        Violation::ExtraInsertion { span, .. } => (m, span.start..span.end),
        Violation::MissedInsertion { branch: Branch::A, span, .. } => (a, span.start..span.end),
        Violation::MissedInsertion { branch: Branch::B, span, .. } => (b, span.start..span.end),
        Violation::ExtraDeletion { span, .. } => (o, span.start..span.end),
        Violation::MissedDeletion { span, .. } => (o, span.start..span.end),
        Violation::MissedRelabel { branch: Branch::A, span, .. } => (a, span.start..span.end),
        Violation::MissedRelabel { branch: Branch::B, span, .. } => (b, span.start..span.end),
    }
}

} // verus!
