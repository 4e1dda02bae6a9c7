//! Span-based synthesis: turn a merged tree back into source text by
//! emitting the input sources' own bytes.
//!
//! The merged tree's leaves are visited depth-first. A maximal run of
//! consecutive leaves that are *adjacent* in one origin file emits as a
//! single contiguous slice of that file — byte-identical, so interior
//! comments and formatting survive. Adjacency (consecutive positions in
//! the origin's leaf sequence) is what separates preserved trivia from
//! deleted code: a gap in the sequence means something between the two
//! leaves was deleted, and slicing across it would resurrect it.
//!
//! Where the origin switches, the inter-token trivia comes from the
//! incoming leaf's own file — the text between its preceding leaf there
//! and itself — which is how a grafted function's doc comment travels.
//! An incoming leaf with no predecessor (its file's first leaf) falls
//! back to a single space unless the output is empty, in which case its
//! leading trivia (a file header comment) is emitted instead.

use vstd::prelude::*;
use vstd::string::{StrSliceExecFns, StringExecFns};

use crate::merge::{MergedId, MergedTree, MergedView, Origin};
use crate::text::{bytes_of, slice_of};
use crate::tree::{NodeId, Tree, TreeView};

verus! {

/// Whether `c` has the Unicode `White_Space` property.
pub open spec fn spec_is_whitespace(c: char) -> bool {
    ||| '\u{9}' <= c <= '\u{d}'
    ||| c == ' '
    ||| c == '\u{85}'
    ||| c == '\u{a0}'
    ||| c == '\u{1680}'
    ||| '\u{2000}' <= c <= '\u{200a}'
    ||| c == '\u{2028}'
    ||| c == '\u{2029}'
    ||| c == '\u{202f}'
    ||| c == '\u{205f}'
    ||| c == '\u{3000}'
}

/// Whether `c` has the Unicode `White_Space` property.
pub fn is_whitespace(c: char) -> (r: bool)
    ensures
        r == spec_is_whitespace(c),
{
    ('\u{9}' <= c && c <= '\u{d}') || c == ' ' || c == '\u{85}' || c == '\u{a0}' || c == '\u{1680}' || (
    '\u{2000}' <= c && c <= '\u{200a}') || c == '\u{2028}' || c == '\u{2029}' || c == '\u{202f}' || c
        == '\u{205f}' || c == '\u{3000}'
}

/// The leaves among a tree's first `n` nodes, in document order.
pub open spec fn leaves_upto(t: TreeView, n: int) -> Seq<NodeId>
    decreases n,
{
    if n <= 0 {
        seq![]
    } else {
        let rest = leaves_upto(t, n - 1);
        if t.is_leaf(NodeId((n - 1) as usize)) {
            rest.push(NodeId((n - 1) as usize))
        } else {
            rest
        }
    }
}

/// A tree's leaves in document order.
pub open spec fn leaves(t: TreeView) -> Seq<NodeId> {
    leaves_upto(t, t.len() as int)
}

/// A leaf's position in its tree's leaf sequence: how many leaves come
/// before it.
pub open spec fn leaf_pos(t: TreeView, node: NodeId) -> Option<int> {
    if node.0 < t.len() && t.is_leaf(node) {
        Some(leaves_upto(t, node.0 as int).len() as int)
    } else {
        None
    }
}

proof fn lemma_leaves_len(t: TreeView, n: int)
    requires
        0 <= n,
    ensures
        leaves_upto(t, n).len() <= n,
    decreases n,
{
    if n > 0 {
        lemma_leaves_len(t, n - 1);
    }
}

/// A tree's leaves in document order, with a node → position lookup.
pub struct LeafSequence {
    order: Vec<NodeId>,
    position: Vec<Option<usize>>,
}

impl LeafSequence {
    /// The sequence describes `t`'s leaves.
    pub open spec fn describes(&self, t: TreeView) -> bool {
        &&& self.spec_order() == leaves(t)
        &&& self.spec_position().len() == t.len()
        &&& forall|i: int|
            #![trigger self.spec_position()[i]]
            0 <= i < t.len() ==> match leaf_pos(t, NodeId(i as usize)) {
                Some(p) => self.spec_position()[i] == Some(p as usize),
                None => self.spec_position()[i] is None,
            }
    }

    pub closed spec fn spec_order(&self) -> Seq<NodeId> {
        self.order@
    }

    pub closed spec fn spec_position(&self) -> Seq<Option<usize>> {
        self.position@
    }

    /// The leaves of `tree`.
    pub fn of(tree: &Tree) -> (r: LeafSequence)
        ensures
            r.describes(tree@),
    {
        let n = tree.node_count();
        let mut order: Vec<NodeId> = Vec::new();
        let mut position: Vec<Option<usize>> = Vec::new();
        let mut i: usize = 0;
        while i < n
            invariant
                n == tree@.len(),
                i <= n,
                order@ == leaves_upto(tree@, i as int),
                position@.len() == i,
                forall|j: int|
                    #![trigger position@[j]]
                    0 <= j < i ==> match leaf_pos(tree@, NodeId(j as usize)) {
                        Some(p) => position@[j] == Some(p as usize),
                        None => position@[j] is None,
                    },
            decreases n - i,
        {
            proof {
                lemma_leaves_len(tree@, i as int);
            }
            if tree.children(NodeId(i)).len() == 0 {
                position.push(Some(order.len()));
                order.push(NodeId(i));
            } else {
                position.push(None);
            }
            i = i + 1;
        }
        LeafSequence { order, position }
    }

    /// The position of `node` among the leaves, if it is one.
    pub fn position(&self, node: NodeId) -> (r: Option<usize>)
        ensures
            node.0 < self.spec_position().len() ==> r == self.spec_position()[node.0 as int],
            node.0 >= self.spec_position().len() ==> r is None,
    {
        if node.0 < self.position.len() {
            self.position[node.0]
        } else {
            None
        }
    }

    /// The leaf at `position`, if there is one.
    pub fn node_at(&self, position: usize) -> (r: Option<NodeId>)
        ensures
            position < self.spec_order().len() ==> r == Some(self.spec_order()[position as int]),
            position >= self.spec_order().len() ==> r is None,
    {
        if position < self.order.len() {
            Some(self.order[position])
        } else {
            None
        }
    }

    /// The number of leaves.
    pub fn len(&self) -> (r: usize)
        ensures
            r == self.spec_order().len(),
    {
        self.order.len()
    }
}

/// The tree at index `i` among (O, A, B).
pub open spec fn tree_at(i: usize, o: TreeView, a: TreeView, b: TreeView) -> TreeView {
    if i == 0 {
        o
    } else if i == 1 {
        a
    } else {
        b
    }
}

/// An origin as a tree index and node.
pub open spec fn origin_parts(origin: Origin) -> (usize, NodeId) {
    match origin {
        Origin::O(n) => (0, n),
        Origin::A(n) => (1, n),
        Origin::B(n) => (2, n),
    }
}

/// The leaves a merged subtree emits, depth-first: a merged leaf emits
/// its origin when that origin is a leaf of its own tree (a merged node
/// emptied of the children its origin had must not emit the origin's
/// span, which still covers them).
pub open spec fn emitted(m: MergedView, o: TreeView, a: TreeView, b: TreeView, id: MergedId) -> Seq<(usize, NodeId)>
    decreases id.0, m.children(id).len() + 1,
{
    if id.0 >= m.len() {
        seq![]
    } else if m.children(id).len() == 0 {
        let (ti, n) = origin_parts(m.origin(id));
        if tree_at(ti, o, a, b).valid(n) && tree_at(ti, o, a, b).is_leaf(n) {
            seq![(ti, n)]
        } else {
            seq![]
        }
    } else {
        emitted_children(m, o, a, b, id, m.children(id).len() as int)
    }
}

/// The leaves emitted by a merged node's first `k` children.
pub open spec fn emitted_children(
    m: MergedView,
    o: TreeView,
    a: TreeView,
    b: TreeView,
    id: MergedId,
    k: int,
) -> Seq<(usize, NodeId)>
    decreases id.0, k,
{
    if k <= 0 || k > m.children(id).len() {
        seq![]
    } else {
        let c = m.children(id)[k - 1];
        let rest = emitted_children(m, o, a, b, id, k - 1);
        if c.0 < id.0 {
            rest + emitted(m, o, a, b, c)
        } else {
            rest
        }
    }
}

/// One in-progress contiguous slice of a single origin file.
#[derive(Clone, Copy)]
pub struct Run {
    pub tree_index: usize,
    pub start: usize,
    pub end: usize,
    pub last_position: usize,
}

/// The text of a byte range, or nothing when the range is not valid.
pub open spec fn slice_or_empty(t: TreeView, start: int, end: int) -> Seq<char> {
    match slice_of(t.source, start, end) {
        Some(s) => s,
        None => seq![],
    }
}

/// The output with a run's slice appended.
pub open spec fn flushed(out: Seq<char>, run: Option<Run>, o: TreeView, a: TreeView, b: TreeView) -> Seq<char> {
    match run {
        Some(r) => out + slice_or_empty(tree_at(r.tree_index, o, a, b), r.start as int, r.end as int),
        None => out,
    }
}

/// The trivia between the leaf at `position` and its predecessor in its
/// own file; `None` for a file's first leaf or an invalid range.
pub open spec fn trivia(t: TreeView, position: int, start: int) -> Option<Seq<char>> {
    if position <= 0 {
        None
    } else {
        slice_of(t.source, t.node(leaves(t)[position - 1]).end, start)
    }
}

/// Whether the text ends in whitespace.
pub open spec fn ends_in_whitespace(out: Seq<char>) -> bool {
    out.len() > 0 && spec_is_whitespace(out.last())
}

/// The synthesis state after one more emitted leaf.
pub open spec fn step(
    state: (Seq<char>, Option<Run>),
    leaf: (usize, NodeId),
    o: TreeView,
    a: TreeView,
    b: TreeView,
) -> (Seq<char>, Option<Run>) {
    let (out, run) = state;
    let (ti, node) = leaf;
    let t = tree_at(ti, o, a, b);
    match leaf_pos(t, node) {
        None => state,
        Some(p) => {
            let start = t.node(node).start;
            let end = t.node(node).end;
            if run is Some && run.unwrap().tree_index == ti && p == run.unwrap().last_position + 1 {
                (out, Some(Run { tree_index: ti, start: run.unwrap().start, end: end as usize, last_position: p as usize }))
            } else {
                let out1 = flushed(out, run, o, a, b);
                let out2 = match trivia(t, p, start) {
                    Some(tv) => out1 + tv,
                    None => if out1.len() == 0 {
                        out1 + slice_or_empty(t, 0, start)
                    } else if !ends_in_whitespace(out1) {
                        out1 + seq![' ']
                    } else {
                        out1
                    },
                };
                (out2, Some(Run { tree_index: ti, start: start as usize, end: end as usize, last_position: p as usize }))
            }
        },
    }
}

/// The synthesis state after the first `k` emitted leaves.
pub open spec fn scan(leaves_list: Seq<(usize, NodeId)>, k: int, o: TreeView, a: TreeView, b: TreeView) -> (
    Seq<char>,
    Option<Run>,
)
    decreases k,
{
    if k <= 0 {
        (seq![], None)
    } else {
        step(scan(leaves_list, k - 1, o, a, b), leaves_list[k - 1], o, a, b)
    }
}

/// The finished text: flush the last run, then close the file with the
/// trailing trivia when the last leaf is its origin's last leaf, or a
/// newline otherwise.
pub open spec fn finish(state: (Seq<char>, Option<Run>), o: TreeView, a: TreeView, b: TreeView) -> Seq<char> {
    let (out, run) = state;
    let out1 = flushed(out, run, o, a, b);
    let closed_tail = match run {
        Some(r) => {
            let t = tree_at(r.tree_index, o, a, b);
            if r.last_position + 1 == leaves(t).len() {
                Some(slice_or_empty(t, t.node(leaves(t)[r.last_position as int]).end, bytes_of(t.source).len() as int))
            } else {
                None
            }
        },
        None => None,
    };
    match closed_tail {
        Some(tail) => out1 + tail,
        None => if out1.len() > 0 && out1.last() != '\n' {
            out1 + seq!['\n']
        } else {
            out1
        },
    }
}

/// The text span synthesis renders for a merged tree.
pub open spec fn rendered(m: MergedView, o: TreeView, a: TreeView, b: TreeView) -> Seq<char> {
    let list = emitted(m, o, a, b, m.root);
    finish(scan(list, list.len() as int, o, a, b), o, a, b)
}

/// A file closes with its origin's trailing text when the last emitted
/// leaf is its origin's last leaf: the rendered text is the flushed text
/// through that leaf followed by everything its file holds after it.
pub proof fn lemma_tail_after_last_leaf(m: MergedView, o: TreeView, a: TreeView, b: TreeView)
    requires
        emitted(m, o, a, b, m.root).len() > 0,
        ({
            let (ti, n) = emitted(m, o, a, b, m.root).last();
            leaf_pos(tree_at(ti, o, a, b), n) matches Some(p) && p + 1 == leaves(tree_at(ti, o, a, b)).len()
        }),
    ensures
        ({
            let list = emitted(m, o, a, b, m.root);
            let state = scan(list, list.len() as int, o, a, b);
            let (ti, n) = list.last();
            let t = tree_at(ti, o, a, b);
            rendered(m, o, a, b) == flushed(state.0, state.1, o, a, b) + slice_or_empty(
                t,
                t.node(n).end,
                bytes_of(t.source).len() as int,
            )
        }),
{
    let list = emitted(m, o, a, b, m.root);
    let k = list.len() as int;
    let (ti, n) = list[k - 1];
    let t = tree_at(ti, o, a, b);
    let p = leaf_pos(t, n).unwrap();
    lemma_leaf_pos(t, n);
    let state = scan(list, k, o, a, b);
    assert(state == step(scan(list, k - 1, o, a, b), list[k - 1], o, a, b));
    assert(state.1 matches Some(r) && r.tree_index == ti && r.last_position == p);
}

/// No text of a deleted node: the text after the last emitted leaf is
/// copied from its origin file only when that leaf is the origin's last
/// leaf. When the last emitted leaf is an interior leaf of its file (what
/// followed it there may be code a branch deleted), the rendered text ends
/// with the flushed text through that leaf, closed by at most a newline.
pub proof fn lemma_no_tail_after_interior_leaf(m: MergedView, o: TreeView, a: TreeView, b: TreeView)
    requires
        emitted(m, o, a, b, m.root).len() > 0,
        ({
            let (ti, n) = emitted(m, o, a, b, m.root).last();
            leaf_pos(tree_at(ti, o, a, b), n) matches Some(p) && p + 1 < leaves(tree_at(ti, o, a, b)).len()
        }),
    ensures
        ({
            let list = emitted(m, o, a, b, m.root);
            let state = scan(list, list.len() as int, o, a, b);
            let through_last = flushed(state.0, state.1, o, a, b);
            rendered(m, o, a, b) == through_last || rendered(m, o, a, b) == through_last.push('\n')
        }),
{
    let list = emitted(m, o, a, b, m.root);
    let k = list.len() as int;
    let (ti, n) = list[k - 1];
    let t = tree_at(ti, o, a, b);
    let p = leaf_pos(t, n).unwrap();
    lemma_leaf_pos(t, n);
    let state = scan(list, k, o, a, b);
    assert(state == step(scan(list, k - 1, o, a, b), list[k - 1], o, a, b));
    assert(state.1 matches Some(r) && r.tree_index == ti && r.last_position == p);
    let out1 = flushed(state.0, state.1, o, a, b);
    assert(finish(state, o, a, b) == out1 || finish(state, o, a, b) == out1.push('\n')) by {
        assert(out1 + seq!['\n'] =~= out1.push('\n'));
    }
}

proof fn lemma_leaves_facts(t: TreeView, n: int)
    requires
        0 <= n <= t.len(),
    ensures
        forall|k: int| 0 <= k < leaves_upto(t, n).len() ==> (#[trigger] leaves_upto(t, n)[k]).0 < n,
        forall|m: int| n <= m <= t.len() ==> leaves_upto(t, n).len() <= #[trigger] leaves_upto(t, m).len(),
    decreases t.len() - n,
{
    lemma_leaves_prefix(t, n);
    assert forall|m: int| n <= m <= t.len() implies leaves_upto(t, n).len() <= #[trigger] leaves_upto(t, m).len() by {
        lemma_leaves_grow(t, n, m);
    }
}

proof fn lemma_leaves_prefix(t: TreeView, n: int)
    requires
        0 <= n,
    ensures
        forall|k: int| 0 <= k < leaves_upto(t, n).len() ==> (#[trigger] leaves_upto(t, n)[k]).0 < n,
    decreases n,
{
    if n > 0 {
        lemma_leaves_prefix(t, n - 1);
        let rest = leaves_upto(t, n - 1);
        let all = leaves_upto(t, n);
        assert forall|k: int| 0 <= k < all.len() implies (#[trigger] all[k]).0 < n by {
            if k < rest.len() {
                assert(all[k] == rest[k]);
            }
        }
    }
}

proof fn lemma_leaves_grow(t: TreeView, n: int, m: int)
    requires
        0 <= n <= m,
    ensures
        leaves_upto(t, n).len() <= leaves_upto(t, m).len(),
        leaves_upto(t, n) == leaves_upto(t, m).subrange(0, leaves_upto(t, n).len() as int),
    decreases m - n,
{
    if n < m {
        lemma_leaves_grow(t, n, m - 1);
        assert(leaves_upto(t, m).subrange(0, leaves_upto(t, m - 1).len() as int) =~= leaves_upto(t, m - 1));
        assert(leaves_upto(t, m).subrange(0, leaves_upto(t, n).len() as int) =~= leaves_upto(t, m - 1).subrange(
            0,
            leaves_upto(t, n).len() as int,
        ));
    } else {
        assert(leaves_upto(t, m).subrange(0, leaves_upto(t, m).len() as int) =~= leaves_upto(t, m));
    }
}

/// A leaf's position indexes the leaf sequence, at the leaf itself.
proof fn lemma_leaf_pos(t: TreeView, node: NodeId)
    requires
        leaf_pos(t, node) is Some,
    ensures
        leaf_pos(t, node).unwrap() < leaves(t).len(),
        leaves(t)[leaf_pos(t, node).unwrap()] == node,
        leaf_pos(t, node).unwrap() <= node.0,
{
    let n = node.0 as int;
    lemma_leaves_grow(t, n + 1, t.len() as int);
    lemma_leaves_len(t, n);
    assert(leaves_upto(t, n + 1) == leaves_upto(t, n).push(node));
    assert(leaves(t).subrange(0, leaves_upto(t, n + 1).len() as int)[n - n + leaves_upto(t, n).len()] == node);
}

/// The tree at index `i` among (O, A, B).
fn pick<'t>(i: usize, o: &'t Tree, a: &'t Tree, b: &'t Tree) -> (r: &'t Tree)
    ensures
        r@ == tree_at(i, o@, a@, b@),
{
    if i == 0 {
        o
    } else if i == 1 {
        a
    } else {
        b
    }
}

/// The leaf sequence at index `i` among (O, A, B).
fn pick_seq<'s>(i: usize, o: &'s LeafSequence, a: &'s LeafSequence, b: &'s LeafSequence) -> (r: &'s LeafSequence)
    ensures
        i == 0 ==> r == o,
        i == 1 ==> r == a,
        i != 0 && i != 1 ==> r == b,
{
    if i == 0 {
        o
    } else if i == 1 {
        a
    } else {
        b
    }
}

/// Appends every leaf the merged subtree at `id` emits.
fn collect_leaves(merged: &MergedTree, o: &Tree, a: &Tree, b: &Tree, id: MergedId, out: &mut Vec<(usize, NodeId)>)
    requires
        merged@.wf(),
        merged@.origins_valid(o@, a@, b@),
        id.0 < merged@.len(),
        forall|j: int| 0 <= j < old(out)@.len() ==> (#[trigger] old(out)@[j]).0 < 3,
    ensures
        final(out)@ == old(out)@ + emitted(merged@, o@, a@, b@, id),
        forall|j: int| 0 <= j < final(out)@.len() ==> (#[trigger] final(out)@[j]).0 < 3,
    decreases id.0,
{
    let origin = merged.origin(id);
    let (ti, node): (usize, NodeId) = match origin {
        Origin::O(n) => (0, n),
        Origin::A(n) => (1, n),
        Origin::B(n) => (2, n),
    };
    let children = merged.children(id);
    if children.len() == 0 {
        let tree = pick(ti, o, a, b);
        proof {
            assert(merged@.nodes[id.0 as int].0 == origin);
        }
        let ghost before = out@;
        if tree.children(node).len() == 0 {
            out.push((ti, node));
        }
        proof {
            assert forall|j: int| 0 <= j < out@.len() implies (#[trigger] out@[j]).0 < 3 by {
                if j < before.len() {
                    assert(out@[j] == before[j]);
                }
            }
        }
        proof {
            assert(old(out)@ + emitted(merged@, o@, a@, b@, id) =~= out@);
        }
    } else {
        let ghost start = out@;
        let mut k: usize = 0;
        while k < children.len()
            invariant
                merged@.wf(),
                merged@.origins_valid(o@, a@, b@),
                id.0 < merged@.len(),
                children@ == merged@.children(id),
                k <= children@.len(),
                out@ == start + emitted_children(merged@, o@, a@, b@, id, k as int),
                forall|j: int| 0 <= j < out@.len() ==> (#[trigger] out@[j]).0 < 3,
            decreases children@.len() - k,
        {
            let c = children[k];
            proof {
                assert(merged@.nodes[id.0 as int].1[k as int] == c);
            }
            collect_leaves(merged, o, a, b, c, out);
            k = k + 1;
            proof {
                assert(out@ =~= start + emitted_children(merged@, o@, a@, b@, id, k as int));
            }
        }
        proof {
            assert(start + emitted(merged@, o@, a@, b@, id) =~= out@);
        }
    }
}

/// Appends `s` to the output, keeping track of its last character.
fn emit(out: &mut String, last: &mut Option<char>, s: &str)
    requires
        *old(last) == (if old(out)@.len() > 0 { Some(old(out)@.last()) } else { None }),
    ensures
        final(out)@ == old(out)@ + s@,
        *final(last) == (if final(out)@.len() > 0 { Some(final(out)@.last()) } else { None }),
{
    out.append(s);
    let n = s.unicode_len();
    if n > 0 {
        *last = Some(s.get_char(n - 1));
    }
}

/// The text of a byte range, or nothing when the range is not valid.
fn slice_or_empty_exec(tree: &Tree, start: usize, end: usize) -> (r: &str)
    ensures
        r@ == slice_or_empty(tree@, start as int, end as int),
{
    match tree.source_slice(start..end) {
        Some(text) => text,
        None => {
            proof {
                reveal_strlit("");
            }
            ""
        },
    }
}

/// Emits a finished run's slice of its origin file.
fn flush(out: &mut String, last: &mut Option<char>, run: Option<Run>, o: &Tree, a: &Tree, b: &Tree)
    requires
        *old(last) == (if old(out)@.len() > 0 { Some(old(out)@.last()) } else { None }),
    ensures
        final(out)@ == flushed(old(out)@, run, o@, a@, b@),
        *final(last) == (if final(out)@.len() > 0 { Some(final(out)@.last()) } else { None }),
{
    if let Some(run) = run {
        let tree = pick(run.tree_index, o, a, b);
        emit(out, last, slice_or_empty_exec(tree, run.start, run.end));
    }
}

/// The trivia between a leaf and its predecessor in its own file, or
/// `None` for a file's first leaf.
fn preceding_trivia<'t>(tree: &'t Tree, sequence: &LeafSequence, position: usize, start: usize) -> (r: Option<&'t str>)
    requires
        sequence.describes(tree@),
        position < leaves(tree@).len(),
    ensures
        match r {
            Some(text) => trivia(tree@, position as int, start as int) == Some(text@),
            None => trivia(tree@, position as int, start as int) is None,
        },
{
    if position == 0 {
        return None;
    }
    let previous = match sequence.node_at(position - 1) {
        Some(n) => n,
        None => return None,
    };
    proof {
        lemma_leaves_facts(tree@, tree@.len() as int);
        assert(previous == leaves(tree@)[position - 1]);
    }
    tree.source_slice(tree.span(previous).end..start)
}

/// Renders the merged tree as source text.
pub fn synthesize(merged: &MergedTree, o: &Tree, a: &Tree, b: &Tree) -> (out: String)
    requires
        merged@.wf(),
        merged@.origins_valid(o@, a@, b@),
    ensures
        out@ == rendered(merged@, o@, a@, b@),
{
    let seq_o = LeafSequence::of(o);
    let seq_a = LeafSequence::of(a);
    let seq_b = LeafSequence::of(b);
    let no = o.node_count();
    let na = a.node_count();
    let nb = b.node_count();

    // The merged leaves, as (tree index, origin node), in order.
    let mut list: Vec<(usize, NodeId)> = Vec::new();
    collect_leaves(merged, o, a, b, merged.root(), &mut list);
    proof {
        assert(list@ =~= emitted(merged@, o@, a@, b@, merged@.root));
    }

    let mut out = String::new();
    let mut last: Option<char> = None;
    let mut run: Option<Run> = None;
    let mut k: usize = 0;
    while k < list.len()
        invariant
            no == o@.len(),
            na == a@.len(),
            nb == b@.len(),
            seq_o.describes(o@),
            seq_a.describes(a@),
            seq_b.describes(b@),
            k <= list@.len(),
            (out@, run) == scan(list@, k as int, o@, a@, b@),
            last == (if out@.len() > 0 { Some(out@.last()) } else { None }),
            run matches Some(r) ==> r.tree_index < 3 && (r.last_position as int) < leaves(
                tree_at(r.tree_index, o@, a@, b@),
            ).len() && r.last_position < usize::MAX,
            forall|j: int| 0 <= j < list@.len() ==> (#[trigger] list@[j]).0 < 3,
        decreases list@.len() - k,
    {
        let (ti, node) = list[k];
        let tree = pick(ti, o, a, b);
        let sequence = pick_seq(ti, &seq_o, &seq_a, &seq_b);
        let ghost t = tree@;
        proof {
            assert(sequence.describes(t));
        }
        let ghost before = (out@, run);
        k = k + 1;
        let position = match sequence.position(node) {
            Some(p) => p,
            None => {
                proof {
                    if node.0 < t.len() {
                        assert(sequence.spec_position()[node.0 as int] is None);
                    }
                    assert(leaf_pos(t, node) is None);
                }
                continue;
            },
        };
        proof {
            assert(node.0 < t.len());
            assert(sequence.spec_position()[node.0 as int] == Some(position));
            assert(NodeId((node.0 as int) as usize) == node);
            lemma_leaves_len(t, node.0 as int);
            assert(leaf_pos(t, node) == Some(position as int));
            lemma_leaf_pos(t, node);
            assert(t.valid(node));
        }
        let span = tree.span(node);
        let extend = match run {
            Some(current) => current.tree_index == ti && position == current.last_position.saturating_add(1),
            None => false,
        };
        if extend {
            let current = run.unwrap();
            run = Some(Run { tree_index: ti, start: current.start, end: span.end, last_position: position });
            continue;
        }
        // Origin switch (or non-adjacent same-origin leaf): flush the
        // run, then bring the incoming leaf's leading trivia along.
        flush(&mut out, &mut last, run, o, a, b);
        run = None;
        match preceding_trivia(tree, sequence, position, span.start) {
            Some(text) => emit(&mut out, &mut last, text),
            None => {
                if out.as_str().unicode_len() == 0 {
                    emit(&mut out, &mut last, slice_or_empty_exec(tree, 0, span.start));
                } else {
                    let ws = match last {
                        Some(c) => is_whitespace(c),
                        None => false,
                    };
                    if !ws {
                        proof {
                            reveal_strlit(" ");
                        }
                        emit(&mut out, &mut last, " ");
                    }
                }
            },
        }
        run = Some(Run { tree_index: ti, start: span.start, end: span.end, last_position: position });
    }

    // Flush and close the file: trailing trivia only when the last
    // leaf is also its origin's last leaf — anything after an interior
    // leaf might be deleted code.
    let ghost state = (out@, run);
    flush(&mut out, &mut last, run, o, a, b);
    let closed = match run {
        Some(current) => {
            let tree = pick(current.tree_index, o, a, b);
            let sequence = pick_seq(current.tree_index, &seq_o, &seq_a, &seq_b);
            proof {
                assert(sequence.describes(tree@));
            }
            if current.last_position.saturating_add(1) != sequence.len() {
                false
            } else {
                match sequence.node_at(current.last_position) {
                    None => false,
                    Some(last_node) => {
                        proof {
                            lemma_leaves_facts(tree@, tree@.len() as int);
                        }
                        let tail = slice_or_empty_exec(tree, tree.span(last_node).end, tree.source_len());
                        emit(&mut out, &mut last, tail);
                        true
                    },
                }
            }
        },
        None => false,
    };
    if !closed && out.as_str().unicode_len() > 0 && last != Some('\n') {
        proof {
            reveal_strlit("\n");
        }
        emit(&mut out, &mut last, "\n");
    }
    out
}

} // verus!
