//! Conflict rules: each rule inspects an (edit-from-A, edit-from-B)
//! pair with context and may yield a [`Conflict`]. The pushout applies
//! common edits once; these rules name the combinations that cannot
//! merge.

use std::ops::Range;

use vstd::prelude::*;

use crate::diff::{Edit, Matching, MatchingView};
use crate::lang::{lemma_commutative_kinds, Lang};
use crate::merge::Conflict;
use crate::text::{opt_str_eq, opt_view, slice_of, str_eq};
use crate::tree::{NodeId, Tree, TreeView};

verus! {

/// Everything a rule may consult: the three trees and the two diffs.
pub struct Ctx<'t> {
    pub o: &'t Tree,
    pub a: &'t Tree,
    pub b: &'t Tree,
    pub f: &'t Matching,
    pub g: &'t Matching,
    /// The grammar's field numbers that name an element (`name`, `key`).
    pub name_fields: &'t Vec<u16>,
}

/// The trees and diffs of a [`Ctx`] as the specifications see them.
pub struct CtxView {
    pub o: TreeView,
    pub a: TreeView,
    pub b: TreeView,
    pub f: MatchingView,
    pub g: MatchingView,
    pub name_fields: Seq<u16>,
}

impl View for Ctx<'_> {
    type V = CtxView;

    open spec fn view(&self) -> CtxView {
        CtxView { o: self.o@, a: self.a@, b: self.b@, f: self.f@, g: self.g@, name_fields: self.name_fields@ }
    }
}

impl Ctx<'_> {
    /// Each diff is a matching sized for its two trees.
    pub open spec fn wf(&self) -> bool {
        &&& self.f@.wf()
        &&& self.f@.fits(self.o@, self.a@)
        &&& self.g@.wf()
        &&& self.g@.fits(self.o@, self.b@)
    }
}

/// A byte range as a pair of integers.
pub open spec fn range_view(r: Option<Range<usize>>) -> Option<(int, int)> {
    match r {
        Some(r) => Some((r.start as int, r.end as int)),
        None => None,
    }
}

/// A conflict as the specifications see it.
pub struct ConflictView {
    pub span_o: Option<(int, int)>,
    pub span_a: Option<(int, int)>,
    pub span_b: Option<(int, int)>,
    pub rule: Seq<char>,
}

pub open spec fn conflict_view(c: Conflict) -> ConflictView {
    ConflictView {
        span_o: range_view(c.span_o),
        span_a: range_view(c.span_a),
        span_b: range_view(c.span_b),
        rule: c.rule@,
    }
}

/// A node's span as a pair of integers.
pub open spec fn span_of(t: TreeView, n: NodeId) -> (int, int) {
    (t.node(n).start, t.node(n).end)
}

fn same_range(x: &Option<Range<usize>>, y: &Option<Range<usize>>) -> (r: bool)
    ensures
        r == (range_view(*x) == range_view(*y)),
{
    match (x, y) {
        (Some(p), Some(q)) => p.start == q.start && p.end == q.end,
        (None, None) => true,
        _ => false,
    }
}

/// Whether two conflicts report the same spans and rule.
fn same_conflict(x: &Conflict, y: &Conflict) -> (r: bool)
    ensures
        r == (conflict_view(*x) == conflict_view(*y)),
{
    same_range(&x.span_o, &y.span_o) && same_range(&x.span_a, &y.span_a) && same_range(
        &x.span_b,
        &y.span_b,
    ) && str_eq(x.rule, y.rule)
}

/// Whether `found` already holds a conflict equal to `c`.
fn contains_conflict(found: &Vec<Conflict>, c: &Conflict) -> (r: bool)
    ensures
        r == exists|k: int| 0 <= k < found@.len() && conflict_view(#[trigger] found@[k]) == conflict_view(*c),
{
    let mut k: usize = 0;
    while k < found.len()
        invariant
            k <= found@.len(),
            forall|j: int| 0 <= j < k ==> conflict_view(#[trigger] found@[j]) != conflict_view(*c),
        decreases found@.len() - k,
    {
        if same_conflict(&found[k], c) {
            return true;
        }
        k = k + 1;
    }
    false
}

/// Appends `c` unless an equal conflict is already present.
fn push_unique(found: &mut Vec<Conflict>, c: Conflict)
    ensures
        final(found)@ == (if exists|k: int|
            0 <= k < old(found)@.len() && conflict_view(#[trigger] old(found)@[k]) == conflict_view(c) {
            old(found)@
        } else {
            old(found)@.push(c)
        }),
{
    if !contains_conflict(found, &c) {
        found.push(c);
    }
}

/// No two conflicts of `found` are equal.
pub open spec fn distinct_conflicts(found: Seq<Conflict>) -> bool {
    forall|k1: int, k2: int|
        0 <= k1 < k2 < found.len() ==> conflict_view(#[trigger] found[k1]) != conflict_view(#[trigger] found[k2])
}

/// The relabel-relabel finding for one cross-branch edit pair: both
/// branches relabeled the same O node to different labels.
pub open spec fn relabel_finding(o: TreeView, a: TreeView, b: TreeView, ea: Edit, eb: Edit) -> Option<ConflictView> {
    match (ea, eb) {
        (Edit::Relabel(xa, ya), Edit::Relabel(xb, yb)) => if xa == xb && a.label(ya) != b.label(yb) {
            Some(
                ConflictView {
                    span_o: Some(span_of(o, xa)),
                    span_a: Some(span_of(a, ya)),
                    span_b: Some(span_of(b, yb)),
                    rule: "relabel-relabel"@,
                },
            )
        } else {
            None
        },
        _ => None,
    }
}

/// relabel-delete: one branch relabeled an O node the other deleted.
/// The conflict carries the relabeling branch's new node.
pub open spec fn relabel_delete_finding(o: TreeView, a: TreeView, b: TreeView, ea: Edit, eb: Edit) -> Option<ConflictView> {
    match (ea, eb) {
        (Edit::Delete(x), Edit::Relabel(xb, yb)) => if x == xb {
            Some(ConflictView { span_o: Some(span_of(o, x)), span_a: None, span_b: Some(span_of(b, yb)), rule: "relabel-delete"@ })
        } else {
            None
        },
        (Edit::Relabel(xa, ya), Edit::Delete(x)) => if x == xa {
            Some(ConflictView { span_o: Some(span_of(o, x)), span_a: Some(span_of(a, ya)), span_b: None, rule: "relabel-delete"@ })
        } else {
            None
        },
        _ => None,
    }
}

/// Some proper ancestor of `n` in `t` comes from the O node `x` under `m`.
pub open spec fn kept_above(t: TreeView, m: MatchingView, n: NodeId, x: NodeId) -> bool
    decreases n.0,
{
    if n.0 < t.nodes.len() {
        match t.parent(n) {
            Some(p) => if p.0 < n.0 {
                m.preimage(p) == Some(x) || kept_above(t, m, p, x)
            } else {
                false
            },
            None => false,
        }
    } else {
        false
    }
}

/// insert-delete: one branch inserted a node under a kept node whose O
/// counterpart the other branch deleted.
pub open spec fn insert_delete_finding(ctx: CtxView, ea: Edit, eb: Edit) -> Option<ConflictView> {
    match (ea, eb) {
        (Edit::Insert(y), Edit::Delete(x)) => if kept_above(ctx.a, ctx.f, y, x) {
            Some(ConflictView { span_o: Some(span_of(ctx.o, x)), span_a: Some(span_of(ctx.a, y)), span_b: None, rule: "insert-delete"@ })
        } else {
            None
        },
        (Edit::Delete(x), Edit::Insert(y)) => if kept_above(ctx.b, ctx.g, y, x) {
            Some(ConflictView { span_o: Some(span_of(ctx.o, x)), span_a: None, span_b: Some(span_of(ctx.b, y)), rule: "insert-delete"@ })
        } else {
            None
        },
        _ => None,
    }
}

/// `x` and `y` are parent and child, in either order.
pub open spec fn adjacent(t: TreeView, x: NodeId, y: NodeId) -> bool {
    t.parent(x) == Some(y) || t.parent(y) == Some(x)
}

/// delete-delete: the two branches' connected deletion regions overlap
/// without coinciding. Seen from one edge: A deleted `xa`, B deleted
/// the neighbouring `xb`, and one of the two nodes is deleted by both
/// while the other is kept by one branch.
pub open spec fn delete_delete_finding(ctx: CtxView, ea: Edit, eb: Edit) -> Option<ConflictView> {
    match (ea, eb) {
        (Edit::Delete(xa), Edit::Delete(xb)) => if adjacent(ctx.o, xa, xb) && ctx.f.image(xb) is None
            && ctx.g.image(xa) is Some {
            Some(ConflictView { span_o: Some(span_of(ctx.o, xb)), span_a: None, span_b: None, rule: "delete-delete"@ })
        } else if adjacent(ctx.o, xa, xb) && ctx.g.image(xa) is None && ctx.f.image(xb) is Some {
            Some(ConflictView { span_o: Some(span_of(ctx.o, xa)), span_a: None, span_b: None, rule: "delete-delete"@ })
        } else {
            None
        },
        _ => None,
    }
}

/// The text of the first of `kids` that fills a naming field.
pub open spec fn name_in(t: TreeView, kids: Seq<NodeId>, fields: Seq<u16>) -> Option<Seq<char>>
    decreases kids.len(),
{
    if kids.len() == 0 {
        None
    } else if t.node(kids[0]).field_id matches Some(fid) && fields.contains(fid) {
        slice_of(t.source, t.node(kids[0]).start, t.node(kids[0]).end)
    } else {
        name_in(t, kids.drop_first(), fields)
    }
}

/// An element's name: the text of its child in a naming field.
pub open spec fn name_of(t: TreeView, n: NodeId, fields: Seq<u16>) -> Option<Seq<char>> {
    name_in(t, t.children(n), fields)
}

/// name-collision: both branches inserted an element of one name under
/// one parent, at different slots or differing — the merge would hold
/// the name twice.
pub open spec fn name_collision_finding(ctx: CtxView, ea: Edit, eb: Edit) -> Option<ConflictView> {
    match (ea, eb) {
        (Edit::Insert(ya), Edit::Insert(yb)) => match (slot_of(ctx.a, ctx.f, ya), slot_of(ctx.b, ctx.g, yb)) {
            (Some(sa), Some(sb)) => if sa.0 == sb.0 && name_of(ctx.a, ya, ctx.name_fields) is Some && name_of(
                ctx.a,
                ya,
                ctx.name_fields,
            ) == name_of(ctx.b, yb, ctx.name_fields) && (sa != sb || ctx.a.hash(ya) != ctx.b.hash(yb) || lead_in(
                ctx.a,
                ctx.f,
                ya,
            ) != lead_in(ctx.b, ctx.g, yb)) {
                Some(
                    ConflictView {
                        span_o: Some(span_of(ctx.o, sa.0)),
                        span_a: Some(span_of(ctx.a, ya)),
                        span_b: Some(span_of(ctx.b, yb)),
                        rule: "name-collision"@,
                    },
                )
            } else {
                None
            },
            _ => None,
        },
        _ => None,
    }
}

/// The hashes of the unmatched siblings right before position `k` of
/// `cs` that bind to what follows them (anonymous tokens and
/// attributes), back to the nearest matched or item-closing sibling:
/// the lead-in an item inserted at `k` carries with it.
pub open spec fn lead_from(t: TreeView, m: MatchingView, cs: Seq<NodeId>, k: int) -> Seq<u64>
    decreases k,
{
    if k <= 0 || k > cs.len() {
        seq![]
    } else {
        let x = cs[k - 1];
        if m.preimage(x) is None && (!t.named(x) || forward_binding(t.node(x).kind)) {
            lead_from(t, m, cs, k - 1).push(t.hash(x))
        } else {
            seq![]
        }
    }
}

/// The lead-in of the inserted node `node` among its siblings.
pub open spec fn lead_in(t: TreeView, m: MatchingView, node: NodeId) -> Seq<u64> {
    match t.parent(node) {
        None => seq![],
        Some(p) => lead_from(t, m, t.children(p), t.children(p).index_of(node)),
    }
}

/// duplicate-insert: both branches inserted the same nameless element,
/// at different slots under one commutative parent — the union would
/// land it twice.
pub open spec fn duplicate_insert_finding(ctx: CtxView, ea: Edit, eb: Edit) -> Option<ConflictView> {
    match (ea, eb) {
        (Edit::Insert(ya), Edit::Insert(yb)) => match (slot_of(ctx.a, ctx.f, ya), slot_of(ctx.b, ctx.g, yb)) {
            (Some(sa), Some(sb)) => if sa.0 == sb.0 && sa != sb && ctx.a.named(ya) && ctx.b.named(yb) && ctx.a.hash(ya)
                == ctx.b.hash(yb) && name_of(ctx.a, ya, ctx.name_fields) is None
                && ctx.o.lang.spec_is_commutative(ctx.o.node(sa.0).kind) {
                Some(
                    ConflictView {
                        span_o: Some(span_of(ctx.o, sa.0)),
                        span_a: Some(span_of(ctx.a, ya)),
                        span_b: Some(span_of(ctx.b, yb)),
                        rule: "duplicate-insert"@,
                    },
                )
            } else {
                None
            },
            _ => None,
        },
        _ => None,
    }
}

/// The finding of the pairwise rules for one cross-branch edit pair
/// (the rules apply to disjoint edit-kind pairs).
pub open spec fn pair_finding(ctx: CtxView, ea: Edit, eb: Edit) -> Option<ConflictView> {
    match (ea, eb) {
        (Edit::Relabel(_, _), Edit::Relabel(_, _)) => relabel_finding(ctx.o, ctx.a, ctx.b, ea, eb),
        (Edit::Delete(_), Edit::Delete(_)) => delete_delete_finding(ctx, ea, eb),
        (Edit::Insert(_), Edit::Delete(_)) => insert_delete_finding(ctx, ea, eb),
        (Edit::Delete(_), Edit::Insert(_)) => insert_delete_finding(ctx, ea, eb),
        (Edit::Delete(_), Edit::Relabel(_, _)) => relabel_delete_finding(ctx.o, ctx.a, ctx.b, ea, eb),
        (Edit::Relabel(_, _), Edit::Delete(_)) => relabel_delete_finding(ctx.o, ctx.a, ctx.b, ea, eb),
        (Edit::Insert(ya), Edit::Insert(_)) => if name_of(ctx.a, ya, ctx.name_fields) is Some {
            name_collision_finding(ctx, ea, eb)
        } else {
            duplicate_insert_finding(ctx, ea, eb)
        },
        _ => None,
    }
}

/// Edits whose nodes are valid in the trees they refer to.
pub open spec fn edits_valid(script: Seq<Edit>, o: TreeView, branch: TreeView) -> bool {
    forall|k: int|
        #![trigger script[k]]
        0 <= k < script.len() ==> match script[k] {
            Edit::Delete(x) => o.valid(x),
            Edit::Insert(y) => branch.valid(y),
            Edit::Relabel(x, y) => o.valid(x) && branch.valid(y),
        }
}

/// relabel-relabel: both branches relabeled the same O node, to
/// different labels. Identical relabels are one edit made twice and
/// merge silently.
fn relabel_relabel(ea: &Edit, eb: &Edit, ctx: &Ctx) -> (r: Option<Conflict>)
    requires
        edits_valid(seq![*ea], ctx.o@, ctx.a@),
        edits_valid(seq![*eb], ctx.o@, ctx.b@),
    ensures
        match r {
            Some(c) => relabel_finding(ctx.o@, ctx.a@, ctx.b@, *ea, *eb) == Some(conflict_view(c)),
            None => relabel_finding(ctx.o@, ctx.a@, ctx.b@, *ea, *eb) is None,
        },
{
    proof {
        assert(seq![*ea][0] == *ea);
        assert(seq![*eb][0] == *eb);
    }
    match (ea, eb) {
        (Edit::Relabel(xa, ya), Edit::Relabel(xb, yb)) => {
            if *xa != *xb || opt_str_eq(ctx.a.label(*ya), ctx.b.label(*yb)) {
                return None;
            }
            let c = Conflict {
                span_o: Some(ctx.o.span(*xa)),
                span_a: Some(ctx.a.span(*ya)),
                span_b: Some(ctx.b.span(*yb)),
                rule: "relabel-relabel",
            };
            proof {
                reveal_strlit("relabel-relabel");
            }
            Some(c)
        },
        _ => None,
    }
}

fn conflict_at(
    span_o: Option<Range<usize>>,
    span_a: Option<Range<usize>>,
    span_b: Option<Range<usize>>,
    rule: &'static str,
) -> (c: Conflict)
    ensures
        c.span_o == span_o,
        c.span_a == span_a,
        c.span_b == span_b,
        c.rule == rule,
{
    Conflict { span_o, span_a, span_b, rule }
}

/// relabel-delete: a relabel of a node the other branch deleted, whose
/// edit would otherwise vanish with the deletion.
fn relabel_delete(ea: &Edit, eb: &Edit, ctx: &Ctx) -> (r: Option<Conflict>)
    requires
        edits_valid(seq![*ea], ctx.o@, ctx.a@),
        edits_valid(seq![*eb], ctx.o@, ctx.b@),
    ensures
        match r {
            Some(c) => relabel_delete_finding(ctx.o@, ctx.a@, ctx.b@, *ea, *eb) == Some(conflict_view(c)),
            None => relabel_delete_finding(ctx.o@, ctx.a@, ctx.b@, *ea, *eb) is None,
        },
{
    proof {
        assert(seq![*ea][0] == *ea);
        assert(seq![*eb][0] == *eb);
        reveal_strlit("relabel-delete");
    }
    match (ea, eb) {
        (Edit::Delete(x), Edit::Relabel(xb, yb)) => {
            if *x != *xb {
                return None;
            }
            Some(conflict_at(Some(ctx.o.span(*x)), None, Some(ctx.b.span(*yb)), "relabel-delete"))
        },
        (Edit::Relabel(xa, ya), Edit::Delete(x)) => {
            if *x != *xa {
                return None;
            }
            Some(conflict_at(Some(ctx.o.span(*x)), Some(ctx.a.span(*ya)), None, "relabel-delete"))
        },
        _ => None,
    }
}

/// insert-delete: an insertion directly under a kept node whose O
/// counterpart the other branch deleted — the inserted code would lose
/// its parent.
fn insert_delete(ea: &Edit, eb: &Edit, ctx: &Ctx) -> (r: Option<Conflict>)
    requires
        ctx.wf(),
        edits_valid(seq![*ea], ctx.o@, ctx.a@),
        edits_valid(seq![*eb], ctx.o@, ctx.b@),
    ensures
        match r {
            Some(c) => insert_delete_finding(ctx@, *ea, *eb) == Some(conflict_view(c)),
            None => insert_delete_finding(ctx@, *ea, *eb) is None,
        },
{
    proof {
        assert(seq![*ea][0] == *ea);
        assert(seq![*eb][0] == *eb);
        reveal_strlit("insert-delete");
    }
    match (ea, eb) {
        (Edit::Insert(y), Edit::Delete(x)) => {
            if has_kept_ancestor(ctx.a, ctx.f, *y, *x) {
                Some(conflict_at(Some(ctx.o.span(*x)), Some(ctx.a.span(*y)), None, "insert-delete"))
            } else {
                None
            }
        },
        (Edit::Delete(x), Edit::Insert(y)) => {
            if has_kept_ancestor(ctx.b, ctx.g, *y, *x) {
                Some(conflict_at(Some(ctx.o.span(*x)), None, Some(ctx.b.span(*y)), "insert-delete"))
            } else {
                None
            }
        },
        _ => None,
    }
}

/// Walks `n`'s ancestors in `tree` looking for one that comes from `x`.
fn has_kept_ancestor(tree: &Tree, m: &Matching, n: NodeId, x: NodeId) -> (r: bool)
    requires
        tree@.valid(n),
        m@.bwd.len() == tree@.len(),
    ensures
        r == kept_above(tree@, m@, n, x),
{
    proof {
        use_type_invariant(tree);
    }
    let mut cur = n;
    loop
        invariant
            tree@.valid(cur),
            tree@.wf(),
            m@.bwd.len() == tree@.len(),
            kept_above(tree@, m@, n, x) == kept_above(tree@, m@, cur, x),
        decreases cur.0,
    {
        match tree.parent(cur) {
            Some(p) => {
                if p.0 >= cur.0 {
                    return false;
                }
                if m.preimage(p) == Some(x) {
                    return true;
                }
                cur = p;
            },
            None => {
                return false;
            },
        }
    }
}

/// delete-delete: the two branches' deletion regions overlap without
/// coinciding, seen across one parent-child edge of O.
fn delete_delete(ea: &Edit, eb: &Edit, ctx: &Ctx) -> (r: Option<Conflict>)
    requires
        ctx.wf(),
        edits_valid(seq![*ea], ctx.o@, ctx.a@),
        edits_valid(seq![*eb], ctx.o@, ctx.b@),
    ensures
        match r {
            Some(c) => delete_delete_finding(ctx@, *ea, *eb) == Some(conflict_view(c)),
            None => delete_delete_finding(ctx@, *ea, *eb) is None,
        },
{
    proof {
        assert(seq![*ea][0] == *ea);
        assert(seq![*eb][0] == *eb);
        reveal_strlit("delete-delete");
        use_type_invariant(ctx.o);
    }
    match (ea, eb) {
        (Edit::Delete(xa), Edit::Delete(xb)) => {
            let adj = ctx.o.parent(*xa) == Some(*xb) || ctx.o.parent(*xb) == Some(*xa);
            if !adj {
                return None;
            }
            if ctx.f.image(*xb).is_none() && ctx.g.image(*xa).is_some() {
                Some(conflict_at(Some(ctx.o.span(*xb)), None, None, "delete-delete"))
            } else if ctx.g.image(*xa).is_none() && ctx.f.image(*xb).is_some() {
                Some(conflict_at(Some(ctx.o.span(*xa)), None, None, "delete-delete"))
            } else {
                None
            }
        },
        _ => None,
    }
}

/// The pairwise rules on one cross-branch edit pair.
fn pair_rules(ea: &Edit, eb: &Edit, ctx: &Ctx) -> (r: Option<Conflict>)
    requires
        ctx.wf(),
        edits_valid(seq![*ea], ctx.o@, ctx.a@),
        edits_valid(seq![*eb], ctx.o@, ctx.b@),
    ensures
        match r {
            Some(c) => pair_finding(ctx@, *ea, *eb) == Some(conflict_view(c)),
            None => pair_finding(ctx@, *ea, *eb) is None,
        },
{
    match (ea, eb) {
        (Edit::Relabel(_, _), Edit::Relabel(_, _)) => relabel_relabel(ea, eb, ctx),
        (Edit::Delete(_), Edit::Delete(_)) => delete_delete(ea, eb, ctx),
        (Edit::Insert(_), Edit::Delete(_)) => insert_delete(ea, eb, ctx),
        (Edit::Delete(_), Edit::Insert(_)) => insert_delete(ea, eb, ctx),
        (Edit::Delete(_), Edit::Relabel(_, _)) => relabel_delete(ea, eb, ctx),
        (Edit::Relabel(_, _), Edit::Delete(_)) => relabel_delete(ea, eb, ctx),
        (Edit::Insert(ya), Edit::Insert(_)) => {
            proof {
                assert(seq![*ea][0] == *ea);
            }
            if element_name(ctx.a, *ya, ctx.name_fields).is_some() {
                name_collision(ea, eb, ctx)
            } else {
                duplicate_insert(ea, eb, ctx)
            }
        },
        _ => None,
    }
}

/// The text of `n`'s child in a naming field, if any.
fn element_name<'t>(tree: &'t Tree, n: NodeId, fields: &Vec<u16>) -> (r: Option<&'t str>)
    requires
        tree@.valid(n),
    ensures
        opt_view(r) == name_of(tree@, n, fields@),
{
    proof {
        use_type_invariant(tree);
        crate::diff::lemma_children(tree@, n);
    }
    let kids = tree.children(n);
    let mut k: usize = 0;
    proof {
        assert(kids@.skip(0) =~= kids@);
    }
    while k < kids.len()
        invariant
            tree@.wf(),
            kids@ == tree@.children(n),
            forall|j: int| 0 <= j < kids@.len() ==> tree@.valid(#[trigger] kids@[j]),
            k <= kids@.len(),
            name_of(tree@, n, fields@) == name_in(tree@, kids@.skip(k as int), fields@),
        decreases kids@.len() - k,
    {
        let c = kids[k];
        proof {
            assert(kids@.skip(k as int)[0] == c);
            assert(kids@.skip(k as int).drop_first() =~= kids@.skip(k + 1));
        }
        if let Some(fid) = tree.field_id(c) {
            if contains_u16(fields, fid) {
                let span = tree.span(c);
                return tree.source_slice(span);
            }
        }
        k = k + 1;
    }
    proof {
        assert(kids@.skip(k as int) =~= Seq::<NodeId>::empty());
    }
    None
}

fn contains_u16(xs: &Vec<u16>, x: u16) -> (r: bool)
    ensures
        r == xs@.contains(x),
{
    let mut k: usize = 0;
    while k < xs.len()
        invariant
            k <= xs@.len(),
            forall|j: int| 0 <= j < k ==> xs@[j] != x,
        decreases xs@.len() - k,
    {
        if xs[k] == x {
            proof {
                assert(xs@[k as int] == x);
            }
            return true;
        }
        k = k + 1;
    }
    false
}

/// name-collision: an element name both branches inserted under one
/// parent, at different slots or with different contents.
fn name_collision(ea: &Edit, eb: &Edit, ctx: &Ctx) -> (r: Option<Conflict>)
    requires
        ctx.wf(),
        edits_valid(seq![*ea], ctx.o@, ctx.a@),
        edits_valid(seq![*eb], ctx.o@, ctx.b@),
    ensures
        match r {
            Some(c) => name_collision_finding(ctx@, *ea, *eb) == Some(conflict_view(c)),
            None => name_collision_finding(ctx@, *ea, *eb) is None,
        },
{
    proof {
        assert(seq![*ea][0] == *ea);
        assert(seq![*eb][0] == *eb);
        reveal_strlit("name-collision");
        use_type_invariant(ctx.o);
        use_type_invariant(ctx.a);
    }
    match (ea, eb) {
        (Edit::Insert(ya), Edit::Insert(yb)) => {
            let sa = match insert_anchor(ctx.a, ctx.f, *ya) {
                Some(sa) => sa,
                None => return None,
            };
            let sb = match insert_anchor(ctx.b, ctx.g, *yb) {
                Some(sb) => sb,
                None => return None,
            };
            if sa.0 != sb.0 {
                return None;
            }
            let na = match element_name(ctx.a, *ya, ctx.name_fields) {
                Some(na) => na,
                None => return None,
            };
            let nb = match element_name(ctx.b, *yb, ctx.name_fields) {
                Some(nb) => nb,
                None => return None,
            };
            if !str_eq(na, nb) {
                return None;
            }
            if same_slot(sa, sb) && ctx.a.hash(*ya) == ctx.b.hash(*yb) {
                let lead_a = lead_in_hashes(ctx.a, ctx.f, *ya);
                let lead_b = lead_in_hashes(ctx.b, ctx.g, *yb);
                if u64s_eq(&lead_a, &lead_b) {
                    return None;
                }
            }
            proof {
                let p = ctx.a@.parent(*ya).unwrap();
                assert(ctx.f@.bwd[p.0 as int] == Some(sa.0));
            }
            Some(conflict_at(Some(ctx.o.span(sa.0)), Some(ctx.a.span(*ya)), Some(ctx.b.span(*yb)), "name-collision"))
        },
        _ => None,
    }
}

fn u64s_eq(a: &Vec<u64>, b: &Vec<u64>) -> (r: bool)
    ensures
        r == (a@ == b@),
{
    if a.len() != b.len() {
        return false;
    }
    let mut k: usize = 0;
    while k < a.len()
        invariant
            a@.len() == b@.len(),
            k <= a@.len(),
            forall|j: int| 0 <= j < k ==> a@[j] == b@[j],
        decreases a@.len() - k,
    {
        if a[k] != b[k] {
            return false;
        }
        k = k + 1;
    }
    proof {
        assert(a@ =~= b@);
    }
    true
}

/// The hashes of an inserted node's lead-in: the unmatched anonymous
/// tokens and attributes right before it among its siblings.
fn lead_in_hashes(tree: &Tree, matching: &Matching, node: NodeId) -> (r: Vec<u64>)
    requires
        tree@.valid(node),
        matching@.wf(),
        matching@.bwd.len() == tree@.len(),
    ensures
        r@ == lead_in(tree@, matching@, node),
{
    proof {
        use_type_invariant(tree);
    }
    let parent = match tree.parent(node) {
        Some(p) => p,
        None => return Vec::new(),
    };
    proof {
        if node.0 == 0 {
            assert(tree@.nodes[0].parent is None);
        }
        assert(tree@.nodes[node.0 as int].parent matches Some(p) && tree@.nodes[p.0 as int].children.contains(node));
    }
    let siblings = tree.children(parent);
    let ghost idx = siblings@.index_of(node);
    proof {
        assert(siblings@.contains(node));
        crate::diff::lemma_children(tree@, parent);
        assert forall|j: int| 0 <= j < idx implies siblings@[j] != node by {
            assert(siblings@[j].0 < siblings@[idx].0);
        }
    }
    let mut at: usize = 0;
    while at < siblings.len()
        invariant
            0 <= idx < siblings@.len(),
            siblings@[idx] == node,
            forall|j: int| 0 <= j < idx ==> siblings@[j] != node,
            at <= idx,
        ensures
            at == idx,
        decreases siblings@.len() - at,
    {
        if siblings[at] == node {
            break;
        }
        at = at + 1;
    }
    let mut out: Vec<u64> = Vec::new();
    let mut k = at;
    proof {
        assert forall|j: int| 0 <= j < siblings@.len() implies tree@.valid(#[trigger] siblings@[j]) by {
            assert(tree@.nodes[parent.0 as int].children[j] == siblings@[j]);
        }
        assert(lead_from(tree@, matching@, siblings@, idx) =~= lead_from(tree@, matching@, siblings@, k as int) + out@);
    }
    while k > 0
        invariant
            k <= at,
            at == idx,
            idx < siblings@.len(),
            siblings@ == tree@.children(parent),
            forall|j: int| 0 <= j < siblings@.len() ==> tree@.valid(#[trigger] siblings@[j]),
            matching@.bwd.len() == tree@.len(),
            lead_from(tree@, matching@, siblings@, idx) == lead_from(tree@, matching@, siblings@, k as int) + out@,
        ensures
            lead_from(tree@, matching@, siblings@, idx) == out@,
        decreases k,
    {
        let x = siblings[k - 1];
        let binds = !tree.is_named(x) || str_eq(tree.kind(x), "attribute_item");
        proof {
            reveal_strlit("attribute_item");
        }
        if matching.preimage(x).is_some() || !binds {
            proof {
                assert(lead_from(tree@, matching@, siblings@, k as int) == Seq::<u64>::empty());
                assert(Seq::<u64>::empty() + out@ =~= out@);
            }
            break;
        }
        let h = tree.hash(x);
        let ghost before = out@;
        out.insert(0, h);
        proof {
            assert(lead_from(tree@, matching@, siblings@, k as int) == lead_from(tree@, matching@, siblings@, k - 1).push(h));
            assert(lead_from(tree@, matching@, siblings@, k - 1).push(h) + before =~= lead_from(tree@, matching@, siblings@, k - 1) + out@);
        }
        k = k - 1;
    }
    proof {
        assert(lead_from(tree@, matching@, siblings@, 0) == Seq::<u64>::empty());
    }
    out
}

/// duplicate-insert: the same named element inserted by both branches
/// at different slots under one commutative parent.
fn duplicate_insert(ea: &Edit, eb: &Edit, ctx: &Ctx) -> (r: Option<Conflict>)
    requires
        ctx.wf(),
        edits_valid(seq![*ea], ctx.o@, ctx.a@),
        edits_valid(seq![*eb], ctx.o@, ctx.b@),
    ensures
        match r {
            Some(c) => duplicate_insert_finding(ctx@, *ea, *eb) == Some(conflict_view(c)),
            None => duplicate_insert_finding(ctx@, *ea, *eb) is None,
        },
{
    proof {
        assert(seq![*ea][0] == *ea);
        assert(seq![*eb][0] == *eb);
        reveal_strlit("duplicate-insert");
        use_type_invariant(ctx.o);
    }
    match (ea, eb) {
        (Edit::Insert(ya), Edit::Insert(yb)) => {
            let sa = match insert_anchor(ctx.a, ctx.f, *ya) {
                Some(sa) => sa,
                None => return None,
            };
            let sb = match insert_anchor(ctx.b, ctx.g, *yb) {
                Some(sb) => sb,
                None => return None,
            };
            if sa.0 != sb.0 || same_slot(sa, sb) {
                return None;
            }
            if !ctx.a.is_named(*ya) || !ctx.b.is_named(*yb) || ctx.a.hash(*ya) != ctx.b.hash(*yb) {
                return None;
            }
            if element_name(ctx.a, *ya, ctx.name_fields).is_some() {
                return None;
            }
            proof {
                use_type_invariant(ctx.a);
                let p = ctx.a@.parent(*ya).unwrap();
                assert(ctx.f@.bwd[p.0 as int] == Some(sa.0));
            }
            if !ctx.o.lang().is_commutative(ctx.o.kind(sa.0)) {
                return None;
            }
            Some(conflict_at(Some(ctx.o.span(sa.0)), Some(ctx.a.span(*ya)), Some(ctx.b.span(*yb)), "duplicate-insert"))
        },
        _ => None,
    }
}

/// The O preimage of the nearest sibling before position `idx` that has
/// one.
pub open spec fn left_anchor(m: MatchingView, sibs: Seq<NodeId>, idx: int) -> Option<NodeId>
    decreases idx,
{
    if idx <= 0 {
        None
    } else {
        match m.preimage(sibs[idx - 1]) {
            Some(p) => Some(p),
            None => left_anchor(m, sibs, idx - 1),
        }
    }
}

/// The slot an inserted branch node lands in: its parent's O preimage
/// and the O preimage of its nearest preceding matched sibling; `None`
/// when the parent is unmatched (a nested insertion) or absent.
pub open spec fn slot_of(t: TreeView, m: MatchingView, node: NodeId) -> Option<(NodeId, Option<NodeId>)> {
    match t.parent(node) {
        None => None,
        Some(p) => match m.preimage(p) {
            None => None,
            Some(po) => Some((po, left_anchor(m, t.children(p), t.children(p).index_of(node)))),
        },
    }
}

/// The slot an inserted node lands in: its parent's O preimage plus
/// the O preimage of the nearest preceding matched sibling. `None`
/// for nested insertions (their parent is inserted too — they ride
/// along with the top-level graft).
fn insert_anchor(tree: &Tree, matching: &Matching, node: NodeId) -> (r: Option<(NodeId, Option<NodeId>)>)
    requires
        tree@.valid(node),
        matching@.wf(),
        matching@.bwd.len() == tree@.len(),
    ensures
        r == slot_of(tree@, matching@, node),
{
    proof {
        use_type_invariant(tree);
    }
    let parent = match tree.parent(node) {
        Some(p) => p,
        None => return None,
    };
    proof {
        if node.0 == 0 {
            assert(tree@.nodes[0].parent is None);
        }
        assert(tree@.nodes[node.0 as int].parent matches Some(p) && tree@.nodes[p.0 as int].children.contains(node));
    }
    let parent_o = match matching.preimage(parent) {
        Some(p) => p,
        None => return None,
    };
    let siblings = tree.children(parent);
    let ghost idx = siblings@.index_of(node);
    proof {
        assert(siblings@.contains(node));
        crate::diff::lemma_children(tree@, parent);
        assert forall|j: int| 0 <= j < idx implies siblings@[j] != node by {
            assert(siblings@[j].0 < siblings@[idx].0);
        }
    }
    let mut left: Option<NodeId> = None;
    let mut k: usize = 0;
    while k < siblings.len()
        invariant
            matching@.wf(),
            matching@.bwd.len() == tree@.len(),
            tree@.wf(),
            tree@.valid(parent),
            siblings@ == tree@.children(parent),
            0 <= idx < siblings@.len(),
            siblings@[idx] == node,
            forall|j: int| 0 <= j < idx ==> siblings@[j] != node,
            k <= idx,
            left == left_anchor(matching@, siblings@, k as int),
        ensures
            left == left_anchor(matching@, siblings@, idx),
        decreases siblings@.len() - k,
    {
        let sibling = siblings[k];
        if sibling == node {
            break;
        }
        proof {
            assert(tree@.nodes[parent.0 as int].children[k as int] == sibling);
        }
        if let Some(preimage) = matching.preimage(sibling) {
            left = Some(preimage);
        }
        k = k + 1;
    }
    Some((parent_o, left))
}

/// The nodes a script inserts at `key`, in script order, among its
/// first `n` edits.
pub open spec fn slot_nodes(
    t: TreeView,
    m: MatchingView,
    script: Seq<Edit>,
    key: (NodeId, Option<NodeId>),
    n: int,
) -> Seq<NodeId>
    decreases n,
{
    if n <= 0 {
        seq![]
    } else {
        let rest = slot_nodes(t, m, script, key, n - 1);
        match script[n - 1] {
            Edit::Insert(y) => if slot_of(t, m, y) == Some(key) {
                rest.push(y)
            } else {
                rest
            },
            _ => rest,
        }
    }
}

/// The slots of a branch's top-level insertions, each with the nodes
/// inserted there in script order: keys are distinct, every listed slot
/// is one the script inserts at, and every such slot is listed.
pub open spec fn slots_of(t: TreeView, m: MatchingView, script: Seq<Edit>, slots: Seq<((NodeId, Option<NodeId>), Vec<NodeId>)>) -> bool {
    &&& forall|i: int, j: int| 0 <= i < j < slots.len() ==> (#[trigger] slots[i]).0 != (#[trigger] slots[j]).0
    &&& forall|i: int|
        #![trigger slots[i]]
        0 <= i < slots.len() ==> slots[i].1@ == slot_nodes(t, m, script, slots[i].0, script.len() as int)
            && slots[i].1@.len() > 0
    &&& forall|key: (NodeId, Option<NodeId>)|
        #![trigger slot_nodes(t, m, script, key, script.len() as int)]
        slot_nodes(t, m, script, key, script.len() as int).len() > 0 ==> exists|i: int|
            0 <= i < slots.len() && (#[trigger] slots[i]).0 == key
}

fn same_slot(x: (NodeId, Option<NodeId>), y: (NodeId, Option<NodeId>)) -> (r: bool)
    ensures
        r == (x == y),
{
    x.0 == y.0 && match (x.1, y.1) {
        (Some(p), Some(q)) => p == q,
        (None, None) => true,
        _ => false,
    }
}

/// Groups a branch's top-level insertions by slot, in sibling order
/// (the edit script lists inserts in pre-order, so same-slot siblings
/// arrive left to right).
fn insert_slots(tree: &Tree, matching: &Matching, script: &Vec<Edit>) -> (slots: Vec<((NodeId, Option<NodeId>), Vec<NodeId>)>)
    requires
        matching@.wf(),
        matching@.bwd.len() == tree@.len(),
        forall|k: int| 0 <= k < script@.len() ==> (#[trigger] script@[k] matches Edit::Insert(y) ==> tree@.valid(y)),
    ensures
        slots_of(tree@, matching@, script@, slots@),
{
    let mut keys: Vec<(NodeId, Option<NodeId>)> = Vec::new();
    let mut lists: Vec<Vec<NodeId>> = Vec::new();
    let mut e: usize = 0;
    while e < script.len()
        invariant
            matching@.wf(),
            matching@.bwd.len() == tree@.len(),
            forall|k: int| 0 <= k < script@.len() ==> (#[trigger] script@[k] matches Edit::Insert(y) ==> tree@.valid(y)),
            e <= script@.len(),
            keys@.len() == lists@.len(),
            forall|i: int, j: int| 0 <= i < j < keys@.len() ==> #[trigger] keys@[i] != #[trigger] keys@[j],
            forall|i: int|
                #![trigger keys@[i]]
                0 <= i < keys@.len() ==> lists@[i]@ == slot_nodes(tree@, matching@, script@, keys@[i], e as int)
                    && lists@[i]@.len() > 0,
            forall|key: (NodeId, Option<NodeId>)|
                #![trigger slot_nodes(tree@, matching@, script@, key, e as int)]
                slot_nodes(tree@, matching@, script@, key, e as int).len() > 0 ==> exists|i: int|
                    0 <= i < keys@.len() && #[trigger] keys@[i] == key,
        decreases script@.len() - e,
    {
        let edit = script[e];
        let next = e + 1;
        let ghost old_keys = keys@;
        let ghost old_lists = lists@;
        if let Edit::Insert(node) = edit {
            if let Some(anchor) = insert_anchor(tree, matching, node) {
                let mut i: usize = 0;
                while i < keys.len()
                    invariant
                        i <= keys@.len(),
                        forall|j: int| 0 <= j < i ==> keys@[j] != anchor,
                    ensures
                        i < keys@.len() ==> keys@[i as int] == anchor,
                        i == keys@.len() ==> forall|j: int| 0 <= j < keys@.len() ==> keys@[j] != anchor,
                    decreases keys@.len() - i,
                {
                    if same_slot(keys[i], anchor) {
                        break;
                    }
                    i = i + 1;
                }
                if i < keys.len() {
                    let mut list = lists.remove(i);
                    list.push(node);
                    lists.insert(i, list);
                } else {
                    keys.push(anchor);
                    let mut list: Vec<NodeId> = Vec::new();
                    list.push(node);
                    lists.push(list);
                }
                proof {
                    assert forall|j: int| #![trigger keys@[j]] 0 <= j < keys@.len() implies lists@[j]@ == slot_nodes(
                        tree@,
                        matching@,
                        script@,
                        keys@[j],
                        next as int,
                    ) && lists@[j]@.len() > 0 by {
                        if j < old_keys.len() {
                            assert(keys@[j] == old_keys[j]);
                            if j != i {
                                assert(lists@[j] == old_lists[j]);
                            }
                        } else {
                            assert(slot_nodes(tree@, matching@, script@, anchor, e as int).len() == 0);
                        }
                    }
                    assert forall|key: (NodeId, Option<NodeId>)|
                        #![trigger slot_nodes(tree@, matching@, script@, key, next as int)]
                        slot_nodes(tree@, matching@, script@, key, next as int).len() > 0 implies exists|j: int|
                            0 <= j < keys@.len() && #[trigger] keys@[j] == key by {
                        if key == anchor {
                            if i < old_keys.len() {
                                assert(keys@[i as int] == key);
                            } else {
                                assert(keys@[old_keys.len() as int] == key);
                            }
                        } else {
                            assert(slot_nodes(tree@, matching@, script@, key, next as int) == slot_nodes(tree@, matching@, script@, key, e as int));
                            let j = choose|j: int| 0 <= j < old_keys.len() && old_keys[j] == key;
                            assert(keys@[j] == key);
                        }
                    }
                }
            } else {
                proof {
                    assert forall|key: (NodeId, Option<NodeId>)|
                        slot_nodes(tree@, matching@, script@, key, next as int) == slot_nodes(tree@, matching@, script@, key, e as int) by {}
                }
            }
        } else {
            proof {
                assert forall|key: (NodeId, Option<NodeId>)|
                    slot_nodes(tree@, matching@, script@, key, next as int) == slot_nodes(tree@, matching@, script@, key, e as int) by {}
            }
        }
        proof {
            assert forall|i: int| #![trigger keys@[i]] 0 <= i < keys@.len() implies lists@[i]@ == slot_nodes(
                tree@, matching@, script@, keys@[i], next as int) && lists@[i]@.len() > 0 by {
                if edit is Insert {
                } else {
                    assert(slot_nodes(tree@, matching@, script@, keys@[i], next as int) == slot_nodes(tree@, matching@, script@, keys@[i], e as int));
                }
            }
        }
        e = next;
    }
    let ghost ok = keys@;
    let ghost ol = lists@;
    let ghost n = keys@.len();
    let mut slots: Vec<((NodeId, Option<NodeId>), Vec<NodeId>)> = Vec::new();
    while keys.len() > 0
        invariant
            keys@.len() == lists@.len(),
            ok.len() == ol.len() == n,
            slots@.len() + keys@.len() == n,
            keys@ == ok.subrange(slots@.len() as int, n as int),
            lists@ == ol.subrange(slots@.len() as int, n as int),
            forall|j: int| 0 <= j < slots@.len() ==> (#[trigger] slots@[j]).0 == ok[j] && slots@[j].1 == ol[j],
        decreases keys@.len(),
    {
        let key = keys.remove(0);
        let list = lists.remove(0);
        slots.push((key, list));
        proof {
            assert(keys@ =~= ok.subrange(slots@.len() as int, n as int));
            assert(lists@ =~= ol.subrange(slots@.len() as int, n as int));
        }
    }
    proof {
        assert forall|i: int| #![trigger slots@[i]] 0 <= i < slots@.len() implies slots@[i].1@ == slot_nodes(tree@, matching@, script@, slots@[i].0, script@.len() as int)
            && slots@[i].1@.len() > 0 by {
            assert(ok[i] == slots@[i].0);
        }
        assert forall|i: int, j: int| 0 <= i < j < slots@.len() implies (#[trigger] slots@[i]).0 != (#[trigger] slots@[j]).0 by {
            assert(ok[i] != ok[j]);
        }
        assert forall|key: (NodeId, Option<NodeId>)|
            #![trigger slot_nodes(tree@, matching@, script@, key, script@.len() as int)]
            slot_nodes(tree@, matching@, script@, key, script@.len() as int).len() > 0 implies exists|i: int|
                0 <= i < slots@.len() && (#[trigger] slots@[i]).0 == key by {
            let i = choose|i: int| 0 <= i < ok.len() && ok[i] == key;
            assert(slots@[i].0 == key);
        }
    }
    slots
}

/// The smallest start among the nodes' spans (first node's start when
/// the sequence has one node).
pub open spec fn min_start(t: TreeView, seq: Seq<NodeId>) -> int
    decreases seq.len(),
{
    if seq.len() <= 1 {
        t.node(seq[0]).start
    } else {
        let rest = min_start(t, seq.drop_last());
        let here = t.node(seq.last()).start;
        if here < rest {
            here
        } else {
            rest
        }
    }
}

/// The largest end among the nodes' spans.
pub open spec fn max_end(t: TreeView, seq: Seq<NodeId>) -> int
    decreases seq.len(),
{
    if seq.len() <= 1 {
        t.node(seq[0]).end
    } else {
        let rest = max_end(t, seq.drop_last());
        let here = t.node(seq.last()).end;
        if here > rest {
            here
        } else {
            rest
        }
    }
}

/// The byte range covering a sequence of nodes; `None` when it is empty.
pub open spec fn cover(t: TreeView, seq: Seq<NodeId>) -> Option<(int, int)> {
    if seq.len() == 0 {
        None
    } else {
        Some((min_start(t, seq), max_end(t, seq)))
    }
}

/// The byte range covering a sequence of nodes.
fn covering_span(tree: &Tree, seq: &Vec<NodeId>) -> (r: Option<Range<usize>>)
    requires
        forall|k: int| 0 <= k < seq@.len() ==> tree@.valid(#[trigger] seq@[k]),
    ensures
        range_view(r) == cover(tree@, seq@),
{
    if seq.len() == 0 {
        return None;
    }
    let first = tree.span(seq[0]);
    let mut start = first.start;
    let mut end = first.end;
    let mut k: usize = 1;
    while k < seq.len()
        invariant
            1 <= k <= seq@.len(),
            forall|t: int| 0 <= t < seq@.len() ==> tree@.valid(#[trigger] seq@[t]),
            start == min_start(tree@, seq@.subrange(0, k as int)),
            end == max_end(tree@, seq@.subrange(0, k as int)),
        decreases seq@.len() - k,
    {
        let span = tree.span(seq[k]);
        proof {
            assert(seq@.subrange(0, k + 1).drop_last() =~= seq@.subrange(0, k as int));
            assert(seq@.subrange(0, k + 1).last() == seq@[k as int]);
        }
        if span.start < start {
            start = span.start;
        }
        if span.end > end {
            end = span.end;
        }
        k = k + 1;
    }
    proof {
        assert(seq@.subrange(0, seq@.len() as int) =~= seq@);
    }
    Some(start..end)
}

/// The subtree hashes of a node sequence.
pub open spec fn hashes_of(t: TreeView, seq: Seq<NodeId>) -> Seq<u64> {
    seq.map_values(|n: NodeId| t.hash(n))
}

/// Whether two node sequences hash equal element by element.
fn same_hashes(ta: &Tree, xs: &Vec<NodeId>, tb: &Tree, ys: &Vec<NodeId>) -> (r: bool)
    requires
        forall|k: int| 0 <= k < xs@.len() ==> ta@.valid(#[trigger] xs@[k]),
        forall|k: int| 0 <= k < ys@.len() ==> tb@.valid(#[trigger] ys@[k]),
    ensures
        r == (hashes_of(ta@, xs@) == hashes_of(tb@, ys@)),
{
    if xs.len() != ys.len() {
        proof {
            assert(hashes_of(ta@, xs@).len() != hashes_of(tb@, ys@).len());
        }
        return false;
    }
    let mut k: usize = 0;
    while k < xs.len()
        invariant
            xs@.len() == ys@.len(),
            k <= xs@.len(),
            forall|k: int| 0 <= k < xs@.len() ==> ta@.valid(#[trigger] xs@[k]),
            forall|k: int| 0 <= k < ys@.len() ==> tb@.valid(#[trigger] ys@[k]),
            forall|t: int| 0 <= t < k ==> ta@.hash(#[trigger] xs@[t]) == tb@.hash(ys@[t]),
        decreases xs@.len() - k,
    {
        if ta.hash(xs[k]) != tb.hash(ys[k]) {
            proof {
                assert(hashes_of(ta@, xs@)[k as int] != hashes_of(tb@, ys@)[k as int]);
            }
            return false;
        }
        k = k + 1;
    }
    proof {
        assert(hashes_of(ta@, xs@) =~= hashes_of(tb@, ys@));
    }
    true
}

/// A node listed at a slot is an insertion of the script landing there.
proof fn lemma_slot_nodes_witness(
    t: TreeView,
    m: MatchingView,
    script: Seq<Edit>,
    key: (NodeId, Option<NodeId>),
    n: int,
)
    requires
        0 <= n <= script.len(),
    ensures
        forall|j: int|
            0 <= j < slot_nodes(t, m, script, key, n).len() ==> exists|k: int|
                0 <= k < n && script[k] == Edit::Insert(#[trigger] slot_nodes(t, m, script, key, n)[j])
                    && slot_of(t, m, slot_nodes(t, m, script, key, n)[j]) == Some(key),
    decreases n,
{
    if n > 0 {
        lemma_slot_nodes_witness(t, m, script, key, n - 1);
        let rest = slot_nodes(t, m, script, key, n - 1);
        let all = slot_nodes(t, m, script, key, n);
        assert forall|j: int| 0 <= j < all.len() implies exists|k: int|
            0 <= k < n && script[k] == Edit::Insert(#[trigger] all[j]) && slot_of(t, m, all[j]) == Some(key) by {
            if j < rest.len() {
                assert(all[j] == rest[j]);
                let k = choose|k: int| 0 <= k < n - 1 && script[k] == Edit::Insert(rest[j]) && slot_of(t, m, rest[j]) == Some(key);
            } else {
                assert(script[n - 1] == Edit::Insert(all[j]));
            }
        }
    }
}

/// The insert-insert finding for a slot both branches inserted at.
pub open spec fn insert_finding(
    o: TreeView,
    a: TreeView,
    b: TreeView,
    key: (NodeId, Option<NodeId>),
    seq_a: Seq<NodeId>,
    seq_b: Seq<NodeId>,
) -> ConflictView {
    ConflictView {
        span_o: Some(span_of(o, key.0)),
        span_a: cover(a, seq_a),
        span_b: cover(b, seq_b),
        rule: "insert-insert"@,
    }
}

/// Both branches inserted at `key`, and their inserted subtree
/// sequences differ.
pub open spec fn slot_clash(
    ctx: CtxView,
    edits_a: Seq<Edit>,
    edits_b: Seq<Edit>,
    key: (NodeId, Option<NodeId>),
) -> bool {
    let sa = slot_nodes(ctx.a, ctx.f, edits_a, key, edits_a.len() as int);
    let sb = slot_nodes(ctx.b, ctx.g, edits_b, key, edits_b.len() as int);
    &&& sa.len() > 0
    &&& sb.len() > 0
    &&& hashes_of(ctx.a, sa) != hashes_of(ctx.b, sb)
    &&& !unions(ctx, sa, sb, key)
}

/// Two runs at a slot under a commutative parent union instead of
/// clashing when both decompose into element groups.
pub open spec fn unions(ctx: CtxView, sa: Seq<NodeId>, sb: Seq<NodeId>, key: (NodeId, Option<NodeId>)) -> bool {
    &&& ctx.o.lang.spec_is_commutative(ctx.o.node(key.0).kind)
    &&& group_scan(ctx.a, sa, sa.len() as int).1.len() == 0
    &&& group_scan(ctx.b, sb, sb.len() as int).1.len() == 0
}

/// The finding a clashing slot reports.
pub open spec fn clash_finding(
    ctx: CtxView,
    edits_a: Seq<Edit>,
    edits_b: Seq<Edit>,
    key: (NodeId, Option<NodeId>),
) -> ConflictView {
    insert_finding(
        ctx.o,
        ctx.a,
        ctx.b,
        key,
        slot_nodes(ctx.a, ctx.f, edits_a, key, edits_a.len() as int),
        slot_nodes(ctx.b, ctx.g, edits_b, key, edits_b.len() as int),
    )
}

/// `c` is the finding of some clashing slot.
pub open spec fn is_clash_finding(ctx: CtxView, edits_a: Seq<Edit>, edits_b: Seq<Edit>, c: ConflictView) -> bool {
    exists|key: (NodeId, Option<NodeId>)|
        slot_clash(ctx, edits_a, edits_b, key) && c == clash_finding(ctx, edits_a, edits_b, key)
}

/// `found` holds a conflict equal to `c`.
pub open spec fn holds(found: Seq<Conflict>, c: ConflictView) -> bool {
    exists|k: int| 0 <= k < found.len() && conflict_view(#[trigger] found[k]) == c
}

/// insert-insert: both branches inserted at the same slot — same
/// parent image, same nearest preceding matched sibling — but the
/// inserted subtree sequences differ. Equal sequences at the same
/// slot are one edit made twice and dedupe instead.
fn insert_insert(ctx: &Ctx, edits_a: &Vec<Edit>, edits_b: &Vec<Edit>, found: &mut Vec<Conflict>)
    requires
        ctx.wf(),
        edits_valid(edits_a@, ctx.o@, ctx.a@),
        edits_valid(edits_b@, ctx.o@, ctx.b@),
    ensures
        final(found)@.len() >= old(found)@.len(),
        final(found)@.subrange(0, old(found)@.len() as int) == old(found)@,
        distinct_conflicts(old(found)@) ==> distinct_conflicts(final(found)@),
        forall|k: int|
            old(found)@.len() <= k < final(found)@.len() ==> is_clash_finding(
                ctx@,
                edits_a@,
                edits_b@,
                conflict_view(#[trigger] final(found)@[k]),
            ),
        forall|key: (NodeId, Option<NodeId>)|
            #[trigger] slot_clash(ctx@, edits_a@, edits_b@, key) ==> holds(
                final(found)@,
                clash_finding(ctx@, edits_a@, edits_b@, key),
            ),
{
    proof {
        use_type_invariant(ctx.a);
        use_type_invariant(ctx.b);
    }
    let slots_a = insert_slots(ctx.a, ctx.f, edits_a);
    let slots_b = insert_slots(ctx.b, ctx.g, edits_b);
    let ghost start = found@;
    let mut i: usize = 0;
    while i < slots_a.len()
        invariant
            ctx.wf(),
            ctx.a@.wf(),
            ctx.b@.wf(),
            edits_valid(edits_a@, ctx.o@, ctx.a@),
            edits_valid(edits_b@, ctx.o@, ctx.b@),
            slots_of(ctx.a@, ctx.f@, edits_a@, slots_a@),
            slots_of(ctx.b@, ctx.g@, edits_b@, slots_b@),
            i <= slots_a@.len(),
            found@.len() >= start.len(),
            found@.subrange(0, start.len() as int) == start,
            distinct_conflicts(start) ==> distinct_conflicts(found@),
            forall|k: int|
                start.len() <= k < found@.len() ==> is_clash_finding(
                    ctx@,
                    edits_a@,
                    edits_b@,
                    conflict_view(#[trigger] found@[k]),
                ),
            forall|j: int|
                #![trigger slots_a@[j]]
                0 <= j < i && slot_clash(ctx@, edits_a@, edits_b@, slots_a@[j].0) ==> holds(
                    found@,
                    clash_finding(ctx@, edits_a@, edits_b@, slots_a@[j].0),
                ),
        decreases slots_a@.len() - i,
    {
        let anchor = slots_a[i].0;
        let seq_a = &slots_a[i].1;
        let ghost sa = slot_nodes(ctx.a@, ctx.f@, edits_a@, anchor, edits_a@.len() as int);
        proof {
            assert(slots_a@[i as int].1@ == sa);
        }
        let mut j: usize = 0;
        while j < slots_b.len()
            invariant
                j <= slots_b@.len(),
                forall|t: int| 0 <= t < j ==> (#[trigger] slots_b@[t]).0 != anchor,
            ensures
                j < slots_b@.len() ==> slots_b@[j as int].0 == anchor,
                j == slots_b@.len() ==> forall|t: int| 0 <= t < slots_b@.len() ==> (#[trigger] slots_b@[t]).0 != anchor,
            decreases slots_b@.len() - j,
        {
            if same_slot(slots_b[j].0, anchor) {
                break;
            }
            j = j + 1;
        }
        let ghost before = found@;
        if j < slots_b.len() {
            let seq_b = &slots_b[j].1;
            let ghost sb = slot_nodes(ctx.b@, ctx.g@, edits_b@, anchor, edits_b@.len() as int);
            proof {
                assert(slots_b@[j as int].1@ == sb);
                lemma_slot_nodes_witness(ctx.a@, ctx.f@, edits_a@, anchor, edits_a@.len() as int);
                lemma_slot_nodes_witness(ctx.b@, ctx.g@, edits_b@, anchor, edits_b@.len() as int);
                assert forall|t: int| 0 <= t < seq_a@.len() implies ctx.a@.valid(#[trigger] seq_a@[t]) by {
                    let k = choose|k: int| 0 <= k < edits_a@.len() && edits_a@[k] == Edit::Insert(sa[t]) && slot_of(ctx.a@, ctx.f@, sa[t]) == Some(anchor);
                }
                assert forall|t: int| 0 <= t < seq_b@.len() implies ctx.b@.valid(#[trigger] seq_b@[t]) by {
                    let k = choose|k: int| 0 <= k < edits_b@.len() && edits_b@[k] == Edit::Insert(sb[t]) && slot_of(ctx.b@, ctx.g@, sb[t]) == Some(anchor);
                }
                let k = choose|k: int| 0 <= k < edits_a@.len() && edits_a@[k] == Edit::Insert(sa[0]) && slot_of(ctx.a@, ctx.f@, sa[0]) == Some(anchor);
                assert(ctx.a@.parent(sa[0]) matches Some(p) && ctx.f@.preimage(p) == Some(anchor.0));
                let p = ctx.a@.parent(sa[0]).unwrap();
                if sa[0].0 == 0 {
                    assert(ctx.a@.nodes[0].parent is None);
                }
                assert(ctx.a@.nodes[sa[0].0 as int].parent matches Some(q) && q.0 < sa[0].0);
                assert(ctx.f@.bwd[p.0 as int] == Some(anchor.0));
            }
            // Under a commutative parent, runs that decompose into
            // element groups merge as a union.
            let union = ctx.o.lang().is_commutative(ctx.o.kind(anchor.0)) && element_groups(
                ctx.a,
                seq_a.as_slice(),
            ).is_some() && element_groups(ctx.b, seq_b.as_slice()).is_some();
            if !same_hashes(ctx.a, seq_a, ctx.b, seq_b) && !union {
                let conflict = Conflict {
                    span_o: Some(ctx.o.span(anchor.0)),
                    span_a: covering_span(ctx.a, seq_a),
                    span_b: covering_span(ctx.b, seq_b),
                    rule: "insert-insert",
                };
                proof {
                    assert(slot_clash(ctx@, edits_a@, edits_b@, anchor));
                    assert(conflict_view(conflict) == clash_finding(ctx@, edits_a@, edits_b@, anchor));
                }
                push_unique(found, conflict);
                proof {
                    assert(found@.subrange(0, start.len() as int) =~= start) by {
                        assert forall|t: int| 0 <= t < start.len() implies found@[t] == start[t] by {
                            assert(found@[t] == before[t]);
                            assert(before.subrange(0, start.len() as int)[t] == start[t]);
                        }
                    }
                    if found@.len() > before.len() {
                        assert(found@[before.len() as int] == conflict);
                    } else {
                        let k = choose|k: int| 0 <= k < before.len() && conflict_view(#[trigger] before[k]) == conflict_view(conflict);
                        assert(found@[k] == before[k]);
                    }
                    assert forall|k: int| start.len() <= k < found@.len() implies is_clash_finding(
                        ctx@,
                        edits_a@,
                        edits_b@,
                        conflict_view(#[trigger] found@[k]),
                    ) by {
                        if k < before.len() {
                            assert(found@[k] == before[k]);
                        } else {
                            assert(found@[k] == conflict);
                        }
                    }
                    if distinct_conflicts(start) {
                        assert forall|k1: int, k2: int|
                            0 <= k1 < k2 < found@.len() implies conflict_view(#[trigger] found@[k1]) != conflict_view(#[trigger] found@[k2]) by {
                            if k2 < before.len() {
                                assert(found@[k1] == before[k1]);
                                assert(found@[k2] == before[k2]);
                            } else {
                                assert(found@[k1] == before[k1]);
                            }
                        }
                    }
                    assert forall|t: int|
                        #![trigger slots_a@[t]]
                        0 <= t < i && slot_clash(ctx@, edits_a@, edits_b@, slots_a@[t].0) implies holds(
                            found@,
                            clash_finding(ctx@, edits_a@, edits_b@, slots_a@[t].0),
                        ) by {
                        let k = choose|k: int| 0 <= k < before.len() && conflict_view(#[trigger] before[k]) == clash_finding(ctx@, edits_a@, edits_b@, slots_a@[t].0);
                        assert(found@[k] == before[k]);
                    }
                }
            } else {
                proof {
                    assert(!slot_clash(ctx@, edits_a@, edits_b@, anchor));
                }
            }
        } else {
            proof {
                let sb = slot_nodes(ctx.b@, ctx.g@, edits_b@, anchor, edits_b@.len() as int);
                if sb.len() > 0 {
                    let t = choose|t: int| 0 <= t < slots_b@.len() && (#[trigger] slots_b@[t]).0 == anchor;
                }
                assert(!slot_clash(ctx@, edits_a@, edits_b@, anchor));
            }
        }
        i = i + 1;
    }
    proof {
        assert forall|key: (NodeId, Option<NodeId>)|
            #[trigger] slot_clash(ctx@, edits_a@, edits_b@, key) implies holds(
                found@,
                clash_finding(ctx@, edits_a@, edits_b@, key),
            ) by {
            let t = choose|t: int| 0 <= t < slots_a@.len() && (#[trigger] slots_a@[t]).0 == key;
        }
    }
}

/// `c` is the pairwise finding of some cross-branch edit pair.
pub open spec fn is_pair_finding(
    ctx: CtxView,
    edits_a: Seq<Edit>,
    edits_b: Seq<Edit>,
    c: ConflictView,
) -> bool {
    exists|i: int, j: int|
        0 <= i < edits_a.len() && 0 <= j < edits_b.len() && pair_finding(ctx, edits_a[i], edits_b[j])
            == Some(c)
}

/// Some rule fires on the two scripts: a cross-branch edit pair has a
/// pairwise finding, or a slot clashes.
pub open spec fn rules_fire(ctx: CtxView, edits_a: Seq<Edit>, edits_b: Seq<Edit>) -> bool {
    ||| exists|i: int, j: int|
        0 <= i < edits_a.len() && 0 <= j < edits_b.len() && pair_finding(ctx,
            #[trigger] edits_a[i],
            #[trigger] edits_b[j],
        ) is Some
    ||| exists|key: (NodeId, Option<NodeId>)| #[trigger] slot_clash(ctx, edits_a, edits_b, key)
}

/// `found` is exactly the set of findings of the two scripts, each
/// reported once.
pub open spec fn reports_findings(ctx: CtxView, edits_a: Seq<Edit>, edits_b: Seq<Edit>, found: Seq<Conflict>) -> bool {
    &&& distinct_conflicts(found)
    &&& forall|k: int|
        0 <= k < found.len() ==> is_pair_finding(ctx, edits_a, edits_b, conflict_view(#[trigger] found[k]))
            || is_clash_finding(ctx, edits_a, edits_b, conflict_view(found[k]))
    &&& forall|i: int, j: int|
        0 <= i < edits_a.len() && 0 <= j < edits_b.len() ==> (pair_finding(ctx,
            #[trigger] edits_a[i],
            #[trigger] edits_b[j],
        ) matches Some(v) ==> holds(found, v))
    &&& forall|key: (NodeId, Option<NodeId>)|
        #[trigger] slot_clash(ctx, edits_a, edits_b, key) ==> holds(found, clash_finding(ctx, edits_a, edits_b, key))
}

/// A report of all findings is empty exactly when no rule fires.
proof fn lemma_reported_iff_fire(ctx: CtxView, edits_a: Seq<Edit>, edits_b: Seq<Edit>, found: Seq<Conflict>)
    requires
        reports_findings(ctx, edits_a, edits_b, found),
    ensures
        found.len() > 0 <==> rules_fire(ctx, edits_a, edits_b),
{
    if found.len() > 0 {
        let c = conflict_view(found[0]);
        if is_pair_finding(ctx, edits_a, edits_b, c) {
            let (i, j) = choose|i: int, j: int|
                0 <= i < edits_a.len() && 0 <= j < edits_b.len() && pair_finding(ctx, edits_a[i], edits_b[j])
                    == Some(c);
            assert(pair_finding(ctx, edits_a[i], edits_b[j]) is Some);
        } else {
            let key = choose|key: (NodeId, Option<NodeId>)|
                slot_clash(ctx, edits_a, edits_b, key) && c == clash_finding(ctx, edits_a, edits_b, key);
            assert(slot_clash(ctx, edits_a, edits_b, key));
        }
    }
    if rules_fire(ctx, edits_a, edits_b) {
        if exists|i: int, j: int|
            0 <= i < edits_a.len() && 0 <= j < edits_b.len() && pair_finding(ctx,
                #[trigger] edits_a[i],
                #[trigger] edits_b[j],
            ) is Some {
            let (i, j) = choose|i: int, j: int|
                0 <= i < edits_a.len() && 0 <= j < edits_b.len() && pair_finding(ctx,
                    #[trigger] edits_a[i],
                    #[trigger] edits_b[j],
                ) is Some;
            let v = pair_finding(ctx, edits_a[i], edits_b[j]).unwrap();
            assert(holds(found, v));
        } else {
            let key = choose|key: (NodeId, Option<NodeId>)| #[trigger] slot_clash(ctx, edits_a, edits_b, key);
            assert(holds(found, clash_finding(ctx, edits_a, edits_b, key)));
        }
    }
}

/// Runs the pairwise rules over every cross-branch edit pair and the
/// aggregate rules over the whole scripts, deduplicating identical
/// findings.
///
/// insert-insert is aggregate rather than pairwise: a branch's
/// insertion at one slot is the *sequence* of subtrees it put there
/// (a JSON insert is a comma and a value), and comparing elements
/// cross-wise would flag two branches making the identical multi-node
/// insertion.
pub fn conflicts(ctx: &Ctx, edits_a: &Vec<Edit>, edits_b: &Vec<Edit>) -> (found: Vec<Conflict>)
    requires
        ctx.wf(),
        edits_valid(edits_a@, ctx.o@, ctx.a@),
        edits_valid(edits_b@, ctx.o@, ctx.b@),
    ensures
        distinct_conflicts(found@),
        forall|k: int|
            0 <= k < found@.len() ==> is_pair_finding(ctx@,
                edits_a@,
                edits_b@,
                conflict_view(#[trigger] found@[k]),
            ) || is_clash_finding(ctx@, edits_a@, edits_b@, conflict_view(found@[k])),
        forall|i: int, j: int|
            0 <= i < edits_a@.len() && 0 <= j < edits_b@.len() ==> (pair_finding(ctx@,
                #[trigger] edits_a@[i],
                #[trigger] edits_b@[j],
            ) matches Some(v) ==> holds(found@, v)),
        forall|key: (NodeId, Option<NodeId>)|
            #[trigger] slot_clash(ctx@, edits_a@, edits_b@, key) ==> holds(
                found@,
                clash_finding(ctx@, edits_a@, edits_b@, key),
            ),
        reports_findings(ctx@, edits_a@, edits_b@, found@),
        found@.len() > 0 <==> rules_fire(ctx@, edits_a@, edits_b@),
{
    let mut found: Vec<Conflict> = Vec::new();
    let mut i: usize = 0;
    while i < edits_a.len()
        invariant
            ctx.wf(),
            edits_valid(edits_a@, ctx.o@, ctx.a@),
            edits_valid(edits_b@, ctx.o@, ctx.b@),
            i <= edits_a@.len(),
            distinct_conflicts(found@),
            forall|k: int|
                0 <= k < found@.len() ==> is_pair_finding(ctx@,
                    edits_a@,
                    edits_b@,
                    conflict_view(#[trigger] found@[k]),
                ),
            forall|x: int, y: int|
                0 <= x < i && 0 <= y < edits_b@.len() ==> (pair_finding(ctx@,
                    #[trigger] edits_a@[x],
                    #[trigger] edits_b@[y],
                ) matches Some(v) ==> holds(found@, v)),
        decreases edits_a@.len() - i,
    {
        let mut j: usize = 0;
        while j < edits_b.len()
            invariant
                ctx.wf(),
                edits_valid(edits_a@, ctx.o@, ctx.a@),
                edits_valid(edits_b@, ctx.o@, ctx.b@),
                i < edits_a@.len(),
                j <= edits_b@.len(),
                distinct_conflicts(found@),
                forall|k: int|
                    0 <= k < found@.len() ==> is_pair_finding(ctx@,
                        edits_a@,
                        edits_b@,
                        conflict_view(#[trigger] found@[k]),
                    ),
                forall|x: int, y: int|
                    0 <= x < edits_a@.len() && 0 <= y < edits_b@.len() && (x < i || (x == i && y < j))
                        ==> (pair_finding(ctx@,
                        #[trigger] edits_a@[x],
                        #[trigger] edits_b@[y],
                    ) matches Some(v) ==> holds(found@, v)),
            decreases edits_b@.len() - j,
        {
            proof {
                assert(edits_valid(seq![edits_a@[i as int]], ctx.o@, ctx.a@)) by {
                    assert(seq![edits_a@[i as int]][0] == edits_a@[i as int]);
                }
                assert(edits_valid(seq![edits_b@[j as int]], ctx.o@, ctx.b@)) by {
                    assert(seq![edits_b@[j as int]][0] == edits_b@[j as int]);
                }
            }
            let ghost before = found@;
            if let Some(conflict) = pair_rules(&edits_a[i], &edits_b[j], ctx) {
                push_unique(&mut found, conflict);
                proof {
                    if found@.len() > before.len() {
                        assert(found@[before.len() as int] == conflict);
                        assert forall|k1: int, k2: int|
                            0 <= k1 < k2 < found@.len() implies conflict_view(#[trigger] found@[k1]) != conflict_view(#[trigger] found@[k2]) by {
                            assert(found@[k1] == before[k1]);
                            if k2 < before.len() {
                                assert(found@[k2] == before[k2]);
                            }
                        }
                    } else {
                        let k = choose|k: int| 0 <= k < before.len() && conflict_view(#[trigger] before[k]) == conflict_view(conflict);
                    }
                    assert forall|k: int| 0 <= k < found@.len() implies is_pair_finding(ctx@,
                        edits_a@,
                        edits_b@,
                        conflict_view(#[trigger] found@[k]),
                    ) by {
                        if k < before.len() {
                            assert(found@[k] == before[k]);
                        } else {
                            assert(found@[k] == conflict);
                            assert(pair_finding(ctx@, edits_a@[i as int], edits_b@[j as int]) == Some(conflict_view(conflict)));
                        }
                    }
                    assert forall|x: int, y: int|
                        0 <= x < edits_a@.len() && 0 <= y < edits_b@.len() && (x < i || (x == i && y < j + 1))
                            implies (pair_finding(ctx@,
                            #[trigger] edits_a@[x],
                            #[trigger] edits_b@[y],
                        ) matches Some(v) ==> holds(found@, v)) by {
                        if let Some(v) = pair_finding(ctx@, edits_a@[x], edits_b@[y]) {
                            if x == i && y == j {
                                if found@.len() > before.len() {
                                    assert(found@[before.len() as int] == conflict);
                                } else {
                                    let k = choose|k: int| 0 <= k < before.len() && conflict_view(#[trigger] before[k]) == conflict_view(conflict);
                                    assert(found@[k] == before[k]);
                                }
                            } else {
                                let k = choose|k: int| 0 <= k < before.len() && conflict_view(#[trigger] before[k]) == v;
                                assert(found@[k] == before[k]);
                            }
                        }
                    }
                }
            }
            j = j + 1;
        }
        i = i + 1;
    }
    let ghost before = found@;
    insert_insert(ctx, edits_a, edits_b, &mut found);
    proof {
        assert forall|k: int| 0 <= k < found@.len() implies is_pair_finding(ctx@,
            edits_a@,
            edits_b@,
            conflict_view(#[trigger] found@[k]),
        ) || is_clash_finding(ctx@, edits_a@, edits_b@, conflict_view(found@[k])) by {
            if k < before.len() {
                assert(found@.subrange(0, before.len() as int)[k] == before[k]);
            }
        }
        assert forall|x: int, y: int|
            0 <= x < edits_a@.len() && 0 <= y < edits_b@.len() implies (pair_finding(ctx@,
                #[trigger] edits_a@[x],
                #[trigger] edits_b@[y],
            ) matches Some(v) ==> holds(found@, v)) by {
            if let Some(v) = pair_finding(ctx@, edits_a@[x], edits_b@[y]) {
                let k = choose|k: int| 0 <= k < before.len() && conflict_view(#[trigger] before[k]) == v;
                assert(found@.subrange(0, before.len() as int)[k] == before[k]);
            }
        }
        assert(reports_findings(ctx@, edits_a@, edits_b@, found@));
        lemma_reported_iff_fire(ctx@, edits_a@, edits_b@, found@);
    }
    found
}

/// Kinds that bind forward: they belong with the item after them.
pub open spec fn forward_binding(kind: Seq<char>) -> bool {
    kind == "attribute_item"@
}

/// Scanning the first `n` nodes of a run into element groups: each named
/// node that does not bind forward closes a group holding it and the
/// nodes pending before it; the rest wait for the next closer.
pub open spec fn group_scan(t: TreeView, run: Seq<NodeId>, n: int) -> (Seq<Seq<NodeId>>, Seq<NodeId>)
    decreases n,
{
    if n <= 0 {
        (seq![], seq![])
    } else {
        let (groups, pending) = group_scan(t, run, n - 1);
        let x = run[n - 1];
        if t.named(x) && !forward_binding(t.node(x).kind) {
            (groups.push(pending.push(x)), seq![])
        } else {
            (groups, pending.push(x))
        }
    }
}

/// The element groups of an inserted run: one per item, with the
/// separators and forward-binding prefixes before it. `None` when the
/// run ends in nodes no item closes.
pub fn element_groups(tree: &Tree, run: &[NodeId]) -> (r: Option<Vec<Vec<NodeId>>>)
    requires
        forall|k: int| 0 <= k < run@.len() ==> tree@.valid(#[trigger] run@[k]),
    ensures
        match r {
            Some(groups) => group_scan(tree@, run@, run@.len() as int).1.len() == 0 && groups@.map_values(
                |g: Vec<NodeId>| g@,
            ) == group_scan(tree@, run@, run@.len() as int).0,
            None => group_scan(tree@, run@, run@.len() as int).1.len() > 0,
        },
{
    let mut groups: Vec<Vec<NodeId>> = Vec::new();
    let mut pending: Vec<NodeId> = Vec::new();
    let mut k: usize = 0;
    while k < run.len()
        invariant
            k <= run@.len(),
            forall|t: int| 0 <= t < run@.len() ==> tree@.valid(#[trigger] run@[t]),
            groups@.map_values(|g: Vec<NodeId>| g@) == group_scan(tree@, run@, k as int).0,
            pending@ == group_scan(tree@, run@, k as int).1,
        decreases run@.len() - k,
    {
        let node = run[k];
        if tree.is_named(node) && !str_eq(tree.kind(node), "attribute_item") {
            let mut group = Vec::new();
            std::mem::swap(&mut group, &mut pending);
            group.push(node);
            let ghost before = groups@;
            groups.push(group);
            proof {
                assert(groups@.map_values(|g: Vec<NodeId>| g@) =~= before.map_values(|g: Vec<NodeId>| g@).push(group@));
            }
        } else {
            pending.push(node);
        }
        k = k + 1;
    }
    if pending.len() > 0 {
        None
    } else {
        Some(groups)
    }
}

/// Every edit of a matching's script names valid nodes.
pub proof fn lemma_script_valid(o: TreeView, branch: TreeView, m: MatchingView)
    requires
        m.wf(),
        m.fits(o, branch),
    ensures
        edits_valid(crate::diff::edit_script(o, branch, m), o, branch),
{
    lemma_src_edits_valid(o, branch, m, o.len());
    lemma_dst_edits_valid(o, branch, m, branch.len());
    let s1 = crate::diff::src_edits(o, branch, m, o.len());
    let s2 = crate::diff::dst_edits(m, branch.len());
    let all = s1 + s2;
    assert forall|k: int| #![trigger all[k]] 0 <= k < all.len() implies match all[k] {
        Edit::Delete(x) => o.valid(x),
        Edit::Insert(y) => branch.valid(y),
        Edit::Relabel(x, y) => o.valid(x) && branch.valid(y),
    } by {
        if k < s1.len() {
            assert(all[k] == s1[k]);
        } else {
            assert(all[k] == s2[k - s1.len()]);
        }
    }
}

proof fn lemma_src_edits_valid(o: TreeView, branch: TreeView, m: MatchingView, n: nat)
    requires
        m.wf(),
        m.fits(o, branch),
        n <= o.len(),
    ensures
        edits_valid(crate::diff::src_edits(o, branch, m, n), o, branch),
    decreases n,
{
    if n > 0 {
        lemma_src_edits_valid(o, branch, m, (n - 1) as nat);
        let x = NodeId((n - 1) as usize);
        if let Some(y) = m.image(x) {
            assert(m.fwd[x.0 as int] == Some(y));
        }
        let rest = crate::diff::src_edits(o, branch, m, (n - 1) as nat);
        let all = crate::diff::src_edits(o, branch, m, n);
        assert forall|k: int| #![trigger all[k]] 0 <= k < all.len() implies match all[k] {
            Edit::Delete(x) => o.valid(x),
            Edit::Insert(y) => branch.valid(y),
            Edit::Relabel(x, y) => o.valid(x) && branch.valid(y),
        } by {
            if k < rest.len() {
                assert(all[k] == rest[k]);
            }
        }
    }
}

proof fn lemma_dst_edits_valid(o: TreeView, branch: TreeView, m: MatchingView, n: nat)
    requires
        m.wf(),
        m.fits(o, branch),
        n <= branch.len(),
    ensures
        edits_valid(crate::diff::dst_edits(m, n), o, branch),
    decreases n,
{
    if n > 0 {
        lemma_dst_edits_valid(o, branch, m, (n - 1) as nat);
        let rest = crate::diff::dst_edits(m, (n - 1) as nat);
        let all = crate::diff::dst_edits(m, n);
        assert forall|k: int| #![trigger all[k]] 0 <= k < all.len() implies match all[k] {
            Edit::Delete(x) => o.valid(x),
            Edit::Insert(y) => branch.valid(y),
            Edit::Relabel(x, y) => o.valid(x) && branch.valid(y),
        } by {
            if k < rest.len() {
                assert(all[k] == rest[k]);
            }
        }
    }
}

/// The same trees and diffs with the two branches' roles exchanged.
pub open spec fn swap_branches(ctx: CtxView) -> CtxView {
    CtxView { o: ctx.o, a: ctx.b, b: ctx.a, f: ctx.g, g: ctx.f, name_fields: ctx.name_fields }
}

/// delete-delete is symmetric in the branches: two deletions give the same
/// finding when A's and B's roles are exchanged, so the rule fires on
/// (O, A, B) exactly when it fires on (O, B, A).
pub proof fn lemma_delete_delete_symmetric(ctx: CtxView, xa: NodeId, xb: NodeId)
    ensures
        pair_finding(ctx, Edit::Delete(xa), Edit::Delete(xb)) == pair_finding(
            swap_branches(ctx),
            Edit::Delete(xb),
            Edit::Delete(xa),
        ),
{
}

/// Overlapping deletion regions conflict, whichever branch deleted the
/// larger one: A deletes `xa`, B deletes the O neighbour `xb`, and one of
/// the two is deleted by both branches while the other is kept by one of
/// them. The finding is a delete-delete conflict at the node both deleted,
/// and the scripts' rules fire.
pub proof fn lemma_overlapping_deletions_conflict(
    ctx: CtxView,
    edits_a: Seq<Edit>,
    edits_b: Seq<Edit>,
    i: int,
    j: int,
    xa: NodeId,
    xb: NodeId,
)
    requires
        0 <= i < edits_a.len(),
        0 <= j < edits_b.len(),
        edits_a[i] == Edit::Delete(xa),
        edits_b[j] == Edit::Delete(xb),
        ctx.o.parent(xa) == Some(xb) || ctx.o.parent(xb) == Some(xa),
        (ctx.f.image(xb) is None && ctx.g.image(xa) is Some) || (ctx.g.image(xa) is None
            && ctx.f.image(xb) is Some),
    ensures
        pair_finding(ctx, edits_a[i], edits_b[j]) == Some(
            ConflictView {
                span_o: Some(span_of(ctx.o, if ctx.f.image(xb) is None { xb } else { xa })),
                span_a: None,
                span_b: None,
                rule: "delete-delete"@,
            },
        ),
        rules_fire(ctx, edits_a, edits_b),
{
    assert(pair_finding(ctx, edits_a[i], edits_b[j]) is Some);
}

/// delete-delete fires only where the two deletion regions overlap
/// without coinciding: the two deleted nodes are O neighbours, and one of
/// them is deleted by both branches while the other is kept by one.
/// Regions that coincide, or deletions that do not touch, raise nothing.
pub proof fn lemma_delete_delete_only_on_overlap(ctx: CtxView, xa: NodeId, xb: NodeId)
    requires
        pair_finding(ctx, Edit::Delete(xa), Edit::Delete(xb)) is Some,
    ensures
        ctx.o.parent(xa) == Some(xb) || ctx.o.parent(xb) == Some(xa),
        (ctx.f.image(xb) is None && ctx.g.image(xa) is Some) || (ctx.g.image(xa) is None && ctx.f.image(xb) is Some),
{
}

/// Concurrent insertions at one slot under a Rust braced import list (or
/// another kind the grammar leaves unordered: the crate's or a module's
/// item list, a trait's bound list) that both decompose into element
/// groups union instead of clashing: the slot raises no insert-insert
/// conflict.
pub proof fn lemma_rust_unordered_slot_no_clash(
    ctx: CtxView,
    edits_a: Seq<Edit>,
    edits_b: Seq<Edit>,
    key: (NodeId, Option<NodeId>),
)
    requires
        ctx.o.lang == Lang::Rust,
        ctx.o.node(key.0).kind == "use_list"@ || ctx.o.node(key.0).kind == "source_file"@
            || ctx.o.node(key.0).kind == "declaration_list"@ || ctx.o.node(key.0).kind
            == "trait_bounds"@,
        group_scan(
            ctx.a,
            slot_nodes(ctx.a, ctx.f, edits_a, key, edits_a.len() as int),
            slot_nodes(ctx.a, ctx.f, edits_a, key, edits_a.len() as int).len() as int,
        ).1.len() == 0,
        group_scan(
            ctx.b,
            slot_nodes(ctx.b, ctx.g, edits_b, key, edits_b.len() as int),
            slot_nodes(ctx.b, ctx.g, edits_b, key, edits_b.len() as int).len() as int,
        ).1.len() == 0,
    ensures
        !slot_clash(ctx, edits_a, edits_b, key),
{
    lemma_commutative_kinds(ctx.o.node(key.0).kind);
}

} // verus!
