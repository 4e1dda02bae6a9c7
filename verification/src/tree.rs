//! The arena syntax tree lifted from a tree-sitter concrete syntax tree.

use vstd::prelude::*;
use vstd::string::StringExecFns;

use crate::cst;
use crate::cst::{syntax_child_count, syntax_extra, syntax_field, syntax_path, SyntaxNode};
use crate::error::Error;
use crate::hash::{hash_node, node_hash};
use crate::lang::Lang;
use crate::text::{bytes_of, opt_view, slice_of, str_slice};

verus! {

/// An index into a [`Tree`]'s node arena.
///
/// Ids are only meaningful for the tree that produced them.
#[derive(Debug, Clone, Copy, PartialEq, Eq, Hash, Structural)]
pub struct NodeId(pub usize);

impl NodeId {
    /// The arena index, for dense per-node side tables.
    pub fn index(self) -> (r: usize)
        ensures
            r == self.0,
    {
        self.0
    }

    /// Rebuilds an id from a side-table index.
    pub fn from_index(index: usize) -> (r: NodeId)
        ensures
            r.0 == index,
    {
        NodeId(index)
    }
}

/// One node as the specifications see it.
pub struct NodeView {
    pub kind: Seq<char>,
    pub kind_id: u16,
    pub named: bool,
    pub start: int,
    pub end: int,
    pub parent: Option<NodeId>,
    pub children: Seq<NodeId>,
    pub field_id: Option<u16>,
}

/// Whether `a` is a proper ancestor of `n` among `nodes`: it lies on
/// `n`'s parent chain (each parent sitting before its child).
pub open spec fn anc_in(nodes: Seq<NodeView>, a: NodeId, n: NodeId) -> bool
    decreases n.0,
{
    if n.0 < nodes.len() {
        match nodes[n.0 as int].parent {
            Some(p) => if p.0 < n.0 {
                p == a || anc_in(nodes, a, p)
            } else {
                false
            },
            None => false,
        }
    } else {
        false
    }
}

/// `a` is `n` or one of its proper ancestors.
pub open spec fn anc_or_self(nodes: Seq<NodeView>, a: NodeId, n: NodeId) -> bool {
    a == n || anc_in(nodes, a, n)
}

/// Depth-first order: each node's parent lies on the path from the root
/// to the node just before it.
pub open spec fn follows_preorder(nodes: Seq<NodeView>) -> bool {
    forall|j: int|
        #![trigger nodes[j].parent]
        0 < j < nodes.len() ==> (nodes[j].parent matches Some(p) && anc_or_self(
            nodes,
            p,
            NodeId((j - 1) as usize),
        ))
}

/// A tree as the specifications see it.
pub struct TreeView {
    pub lang: Lang,
    pub source: Seq<char>,
    pub nodes: Seq<NodeView>,
    pub hashes: Seq<u64>,
}

impl TreeView {
    pub open spec fn len(self) -> nat {
        self.nodes.len()
    }

    pub open spec fn valid(self, id: NodeId) -> bool {
        id.0 < self.nodes.len()
    }

    pub open spec fn node(self, id: NodeId) -> NodeView {
        self.nodes[id.0 as int]
    }

    pub open spec fn children(self, id: NodeId) -> Seq<NodeId> {
        self.nodes[id.0 as int].children
    }

    pub open spec fn parent(self, id: NodeId) -> Option<NodeId> {
        self.nodes[id.0 as int].parent
    }

    pub open spec fn kind_id(self, id: NodeId) -> u16 {
        self.nodes[id.0 as int].kind_id
    }

    pub open spec fn named(self, id: NodeId) -> bool {
        self.nodes[id.0 as int].named
    }

    pub open spec fn is_leaf(self, id: NodeId) -> bool {
        self.nodes[id.0 as int].children.len() == 0
    }

    /// A node's label: the source text of a named leaf, if its span is a
    /// valid range of the source.
    pub open spec fn label(self, id: NodeId) -> Option<Seq<char>> {
        let n = self.nodes[id.0 as int];
        if n.named && n.children.len() == 0 {
            slice_of(self.source, n.start, n.end)
        } else {
            None
        }
    }

    pub open spec fn hash(self, id: NodeId) -> u64 {
        self.hashes[id.0 as int]
    }

    /// Whether `a` is a proper ancestor of `n`: it lies on `n`'s parent
    /// chain.
    pub open spec fn is_anc(self, a: NodeId, n: NodeId) -> bool {
        anc_in(self.nodes, a, n)
    }

    /// Two subtrees agree in kind, label, and shape, all the way down.
    pub open spec fn subtree_eq(self, s: NodeId, other: TreeView, d: NodeId) -> bool
        decreases self.nodes.len() - s.0,
    {
        &&& self.valid(s)
        &&& other.valid(d)
        &&& self.kind_id(s) == other.kind_id(d)
        &&& self.label(s) == other.label(d)
        &&& self.children(s).len() == other.children(d).len()
        &&& forall|k: int|
            #![trigger self.children(s)[k]]
            0 <= k < self.children(s).len() ==> {
                &&& s.0 < self.children(s)[k].0 < self.nodes.len()
                &&& self.subtree_eq(self.children(s)[k], other, other.children(d)[k])
            }
    }

    /// The hashes of a node's children, in order.
    pub open spec fn child_hashes(self, id: NodeId) -> Seq<u64> {
        self.children(id).map_values(|c: NodeId| self.hashes[c.0 as int])
    }

    /// The arena's shape: the root at index 0, every other node after its
    /// parent and listed among the parent's children, children after
    /// their parent and in increasing order.
    pub open spec fn arena_wf(self) -> bool {
        &&& self.nodes.len() >= 1
        &&& self.nodes[0].parent is None
        &&& forall|i: int|
            #![trigger self.nodes[i].parent]
            0 < i < self.nodes.len() ==> {
                &&& self.nodes[i].parent matches Some(p)
                &&& p.0 < i
                &&& self.nodes[p.0 as int].children.contains(NodeId(i as usize))
            }
        &&& forall|i: int, k: int|
            #![trigger self.nodes[i].children[k]]
            0 <= i < self.nodes.len() && 0 <= k < self.nodes[i].children.len() ==> {
                &&& i < self.nodes[i].children[k].0 < self.nodes.len()
                &&& self.nodes[self.nodes[i].children[k].0 as int].parent == Some(NodeId(i as usize))
            }
        &&& forall|i: int, k1: int, k2: int|
            #![trigger self.nodes[i].children[k1], self.nodes[i].children[k2]]
            0 <= i < self.nodes.len() && 0 <= k1 < k2 < self.nodes[i].children.len()
                ==> self.nodes[i].children[k1].0 < self.nodes[i].children[k2].0
        &&& follows_preorder(self.nodes)
    }

    /// Every hash is the digest of the node's kind id, label, and
    /// children's hashes.
    pub open spec fn hashes_wf(self) -> bool {
        &&& self.hashes.len() == self.nodes.len()
        &&& forall|i: int|
            #![trigger self.hashes[i]]
            0 <= i < self.nodes.len() ==> self.hashes[i] == node_hash(
                self.nodes[i].kind_id,
                self.label(NodeId(i as usize)),
                self.child_hashes(NodeId(i as usize)),
            )
    }

    pub open spec fn wf(self) -> bool {
        &&& self.arena_wf()
        &&& self.hashes_wf()
    }
}

/// Ancestry is transitive.
pub proof fn lemma_anc_trans(t: TreeView, a: NodeId, b: NodeId, c: NodeId)
    requires
        t.is_anc(a, b),
        t.is_anc(b, c),
    ensures
        t.is_anc(a, c),
    decreases c.0,
{
    let p = t.nodes[c.0 as int].parent.unwrap();
    if p != b {
        lemma_anc_trans(t, a, b, p);
    }
}

/// The arena is in pre-order: a subtree is a contiguous run of indices,
/// so every node between a node and one of its descendants is a
/// descendant too.
pub proof fn lemma_subtree_contiguous(t: TreeView, a: NodeId, n: NodeId, j: NodeId)
    requires
        t.arena_wf(),
        t.is_anc(a, n),
        a.0 < j.0 <= n.0,
    ensures
        t.is_anc(a, j),
    decreases n.0 - j.0,
{
    if j.0 < n.0 {
        let next = NodeId((j.0 + 1) as usize);
        lemma_subtree_contiguous(t, a, n, next);
        assert(t.nodes[next.0 as int].parent matches Some(q) && anc_or_self(t.nodes, q, j));
        let q = t.nodes[next.0 as int].parent.unwrap();
        if q != a && q != j {
            lemma_anc_trans(t, a, q, j);
        }
    }
}

/// Equal subtrees hash equal, wherever they sit and in whichever tree:
/// a node's hash depends only on its kind, label, and children's hashes.
pub proof fn lemma_equal_subtrees_hash_equal(a: TreeView, s: NodeId, b: TreeView, d: NodeId)
    requires
        a.wf(),
        b.wf(),
        a.subtree_eq(s, b, d),
    ensures
        a.hash(s) == b.hash(d),
    decreases a.len() - s.0,
{
    let cs = a.children(s);
    let cd = b.children(d);
    assert forall|k: int| 0 <= k < cs.len() implies a.hashes[cs[k].0 as int] == b.hashes[cd[k].0 as int] by {
        assert(s.0 < cs[k].0 < a.len());
        assert(a.subtree_eq(cs[k], b, cd[k]));
        lemma_equal_subtrees_hash_equal(a, cs[k], b, cd[k]);
    }
    assert(a.child_hashes(s) =~= b.child_hashes(d));
    assert(a.hashes[s.0 as int] == node_hash(a.nodes[s.0 as int].kind_id, a.label(s), a.child_hashes(s)));
    assert(b.hashes[d.0 as int] == node_hash(b.nodes[d.0 as int].kind_id, b.label(d), b.child_hashes(d)));
}

#[derive(Debug)]
struct NodeData {
    kind: &'static str,
    kind_id: u16,
    named: bool,
    start: usize,
    end: usize,
    parent: Option<NodeId>,
    children: Vec<NodeId>,
    field_id: Option<u16>,
}

impl NodeData {
    closed spec fn view_node(self) -> NodeView {
        NodeView {
            kind: self.kind@,
            kind_id: self.kind_id,
            named: self.named,
            start: self.start as int,
            end: self.end as int,
            parent: self.parent,
            children: self.children@,
            field_id: self.field_id,
        }
    }
}

closed spec fn view_nodes(nodes: Seq<NodeData>) -> Seq<NodeView> {
    nodes.map_values(|n: NodeData| n.view_node())
}

/// An owned syntax tree lifted from a tree-sitter CST.
///
/// Nodes live in an arena in pre-order (the root is index 0). The lift
/// keeps named and anonymous nodes — anonymous tokens like `+` carry
/// meaning through their kind — but drops `extra` nodes (comments), and
/// parsing rejects sources whose CST contains error or missing nodes:
/// structural merge requires syntactically valid inputs.
#[derive(Debug)]
pub struct Tree {
    lang: Lang,
    source: String,
    nodes: Vec<NodeData>,
    hashes: Vec<u64>,
}

impl View for Tree {
    type V = TreeView;

    closed spec fn view(&self) -> TreeView {
        TreeView {
            lang: self.lang,
            source: self.source@,
            nodes: view_nodes(self.nodes@),
            hashes: self.hashes@,
        }
    }
}

/// The text under a node's span when the node is a named leaf.
fn label_of<'a>(source: &'a str, node: &NodeData) -> (r: Option<&'a str>)
    ensures
        opt_view(r) == (if node.named && node.children@.len() == 0 {
            slice_of(source@, node.start as int, node.end as int)
        } else {
            None
        }),
{
    if node.named && node.children.len() == 0 {
        str_slice(source, node.start, node.end)
    } else {
        None
    }
}

impl Tree {
    #[verifier::type_invariant]
    pub open spec fn inv(self) -> bool {
        self@.wf()
    }

    /// Parses `source` with `lang`'s grammar and lifts the CST.
    ///
    /// Fails with [`Error::Parse`] exactly when the CST contains error or
    /// missing nodes. A returned tree
    /// is the lift of the parse: its arena holds the parse's non-extra
    /// nodes in pre-order, each with its kind, span and field. The error's
    /// `path` is empty because the source arrives here as text; callers
    /// that read from a file rewrap the error with the real path.
    pub fn parse(source: &str, lang: Lang) -> (r: Result<Tree, Error>)
        ensures
            r matches Ok(t) ==> t@.source == source@ && t@.lang == lang,
            r is Ok <==> cst::error_free(lang.spec_name(), source@),
            r matches Ok(t) ==> exists|pos: Seq<Seq<int>>| lifted_from(lang.spec_name(), source@, t@.nodes, pos),
            r matches Err(e) ==> e matches Error::Parse { path, lang: name } && path@
                == Seq::<char>::empty() && name@ == lang.spec_name(),
    {
        let grammar = lang.grammar();
        let mut parser = cst::new_parser();
        let parsed = if cst::parser_set_language(&mut parser, &grammar) {
            cst::parser_parse(&mut parser, source)
        } else {
            None
        };
        let syntax = match parsed {
            Some(syntax) => syntax,
            None => return Err(parse_error(lang)),
        };
        let root = cst::syntax_root(&syntax);
        if has_error_or_missing(root) {
            return Err(parse_error(lang));
        }
        let nodes = lift(root);
        let hashes = compute_hashes(source, &nodes);
        let owned = source.to_owned();
        let count = nodes.len();
        proof {
            assert(nodes@.len() == count);
            let v = TreeView {
                lang,
                source: owned@,
                nodes: view_nodes(nodes@),
                hashes: hashes@,
            };
            assert(v.arena_wf());
            assert forall|i: int| 0 <= i < v.nodes.len() implies #[trigger] v.hashes[i] == node_hash(
                v.nodes[i].kind_id,
                v.label(NodeId(i as usize)),
                v.child_hashes(NodeId(i as usize)),
            ) by {
                assert(v.nodes[i] == nodes@[i].view_node());
                assert(v.child_hashes(NodeId(i as usize)) =~= nodes@[i].children@.map_values(
                    |c: NodeId| hashes@[c.0 as int],
                ));
            }
            assert(v.hashes_wf());
        }
        Ok(Tree { lang, source: owned, nodes, hashes })
    }

    /// The language this tree was parsed with.
    pub fn lang(&self) -> (r: Lang)
        ensures
            r == self@.lang,
    {
        self.lang
    }

    /// The root node (arena index 0).
    pub fn root(&self) -> (r: NodeId)
        ensures
            r == NodeId(0),
            self@.valid(r),
    {
        proof {
            use_type_invariant(self);
        }
        NodeId(0)
    }

    /// The number of nodes.
    pub fn node_count(&self) -> (r: usize)
        ensures
            r == self@.len(),
    {
        self.nodes.len()
    }

    /// All nodes in pre-order.
    pub fn nodes(&self) -> (r: Vec<NodeId>)
        ensures
            r@.len() == self@.len(),
            forall|i: int| 0 <= i < r@.len() ==> #[trigger] r@[i] == NodeId(i as usize),
    {
        let mut out: Vec<NodeId> = Vec::new();
        let n = self.nodes.len();
        let mut i: usize = 0;
        while i < n
            invariant
                n == self@.len(),
                i <= n,
                out@.len() == i,
                forall|k: int| 0 <= k < i ==> #[trigger] out@[k] == NodeId(k as usize),
            decreases n - i,
        {
            out.push(NodeId(i));
            i = i + 1;
        }
        out
    }

    /// Whether the node is named (a grammar rule) as opposed to an
    /// anonymous token like `+`.
    pub fn is_named(&self, id: NodeId) -> (r: bool)
        requires
            self@.valid(id),
        ensures
            r == self@.named(id),
    {
        self.nodes[id.0].named
    }

    /// The node's grammar kind name, e.g. `"function_item"`.
    pub fn kind(&self, id: NodeId) -> (r: &'static str)
        requires
            self@.valid(id),
        ensures
            r@ == self@.node(id).kind,
    {
        self.nodes[id.0].kind
    }

    /// The node's grammar kind id. Diffing matches nodes by kind id;
    /// nodes of different kinds never match.
    pub fn kind_id(&self, id: NodeId) -> (r: u16)
        requires
            self@.valid(id),
        ensures
            r == self@.kind_id(id),
    {
        self.nodes[id.0].kind_id
    }

    /// The node's label: its source text, for named leaves only.
    ///
    /// Anonymous tokens and interior nodes have no label — this
    /// restrains relabeling to meaningful cases (identifiers,
    /// literals); structural nodes match by kind alone.
    pub fn label(&self, id: NodeId) -> (r: Option<&str>)
        requires
            self@.valid(id),
        ensures
            opt_view(r) == self@.label(id),
    {
        label_of(self.source.as_str(), &self.nodes[id.0])
    }

    /// The node's byte range in the source.
    pub fn span(&self, id: NodeId) -> (r: std::ops::Range<usize>)
        requires
            self@.valid(id),
        ensures
            r.start == self@.node(id).start,
            r.end == self@.node(id).end,
    {
        let node = &self.nodes[id.0];
        node.start..node.end
    }

    /// The source text under a byte range, if the range is valid.
    pub fn source_slice(&self, span: std::ops::Range<usize>) -> (r: Option<&str>)
        ensures
            opt_view(r) == slice_of(self@.source, span.start as int, span.end as int),
    {
        str_slice(self.source.as_str(), span.start, span.end)
    }

    /// The source length in bytes.
    pub fn source_len(&self) -> (r: usize)
        ensures
            r == bytes_of(self@.source).len(),
    {
        self.source.as_str().as_bytes().len()
    }

    /// The node's children, in source order.
    pub fn children(&self, id: NodeId) -> (r: &[NodeId])
        requires
            self@.valid(id),
        ensures
            r@ == self@.children(id),
    {
        self.nodes[id.0].children.as_slice()
    }

    /// The node's parent; `None` for the root.
    pub fn parent(&self, id: NodeId) -> (r: Option<NodeId>)
        requires
            self@.valid(id),
        ensures
            r == self@.parent(id),
    {
        self.nodes[id.0].parent
    }

    /// The grammar field this node fills in its parent, if any — e.g. a
    /// function's identifier sits in `function_item`'s `name` field.
    pub fn field_id(&self, id: NodeId) -> (r: Option<u16>)
        requires
            self@.valid(id),
        ensures
            r == self@.node(id).field_id,
    {
        self.nodes[id.0].field_id
    }

    /// The node's subtree Merkle hash: (kind id, label, child hashes),
    /// position-independent.
    pub fn hash(&self, id: NodeId) -> (r: u64)
        requires
            self@.valid(id),
        ensures
            r == self@.hash(id),
    {
        proof {
            use_type_invariant(self);
        }
        self.hashes[id.0]
    }
}

fn parse_error(lang: Lang) -> (e: Error)
    ensures
        e matches Error::Parse { path, lang: name } && path@ == Seq::<char>::empty() && name@
            == lang.spec_name(),
{
    Error::Parse { path: String::new(), lang: String::from_str(lang.name()) }
}

/// `p` is `q` or leads to it: the first steps of `q` are `p`.
pub open spec fn prefix_of(p: Seq<int>, q: Seq<int>) -> bool {
    p.len() <= q.len() && q.take(p.len() as int) == p
}

/// Some node waiting on the walk's stack is `q` or one of its ancestors.
spec fn awaits(stack: Seq<SyntaxNode>, q: Seq<int>) -> bool {
    exists|k: int| 0 <= k < stack.len() && #[trigger] prefix_of(stack[k].path(), q)
}

/// The node at `q` is neither an error nor a missing node.
spec fn sound_at(g: Seq<char>, s: Seq<char>, q: Seq<int>) -> bool {
    !cst::syntax_error(g, s, q) && !cst::syntax_missing(g, s, q)
}

/// A child's position leads through existing children when its
/// parent's does.
proof fn lemma_child_path(g: Seq<char>, s: Seq<char>, p: Seq<int>, j: int)
    requires
        syntax_path(g, s, p),
        0 <= j < syntax_child_count(g, s, p),
    ensures
        syntax_path(g, s, p.push(j)),
{
    let c = p.push(j);
    assert forall|k: int| 0 <= k < c.len() implies 0 <= #[trigger] c[k] < syntax_child_count(g, s, c.take(k)) by {
        if k < p.len() {
            assert(c.take(k) =~= p.take(k));
            assert(c[k] == p[k]);
        } else {
            assert(c.take(k) =~= p);
        }
    }
}

/// The descendant counts of the nodes waiting on a walk's stack, summed.
spec fn walk_weight(stack: Seq<SyntaxNode>) -> nat
    decreases stack.len(),
{
    if stack.len() == 0 {
        0
    } else {
        walk_weight(stack.drop_last()) + cst::syntax_descendants(
            stack.last().grammar(),
            stack.last().source(),
            stack.last().path(),
        )
    }
}

proof fn lemma_walk_weight_push(stack: Seq<SyntaxNode>, e: SyntaxNode)
    ensures
        walk_weight(stack.push(e)) == walk_weight(stack) + cst::syntax_descendants(e.grammar(), e.source(), e.path()),
{
    assert(stack.push(e).drop_last() =~= stack);
}

/// Walks the whole CST — including `extra` subtrees the lift skips —
/// looking for error or missing nodes.
fn has_error_or_missing(root: SyntaxNode) -> (r: bool)
    requires
        root.path() == Seq::<int>::empty(),
    ensures
        r == !cst::error_free(root.grammar(), root.source()),
{
    let ghost g = root.grammar();
    let ghost s = root.source();
    let mut stack: Vec<SyntaxNode> = Vec::new();
    stack.push(root);
    proof {
        assert(syntax_path(g, s, root.path()));
        assert forall|q: Seq<int>| #[trigger] syntax_path(g, s, q) implies sound_at(g, s, q) || awaits(stack@, q) by {
            assert(q.take(0) =~= root.path());
            assert(prefix_of(stack@[0].path(), q));
        }
    }
    while stack.len() > 0
        invariant
            g == root.grammar(),
            s == root.source(),
            forall|k: int|
                0 <= k < stack@.len() ==> (#[trigger] stack@[k]).grammar() == g && stack@[k].source() == s
                    && syntax_path(g, s, stack@[k].path()),
            forall|q: Seq<int>| #[trigger] syntax_path(g, s, q) ==> sound_at(g, s, q) || awaits(stack@, q),
        decreases walk_weight(stack@),
    {
        let ghost before = stack@;
        let node = match stack.pop() {
            Some(node) => node,
            None => {
                proof {
                    assert(false);
                }
                return false;
            },
        };
        proof {
            assert(before.last() == node);
            assert(before[before.len() - 1] == node);
            assert(before[before.len() - 1].grammar() == g);
        }
        if cst::node_is_error(&node) || cst::node_is_missing(&node) {
            proof {
                assert(node.grammar() == g && node.source() == s && syntax_path(g, s, node.path()));
                assert(!sound_at(g, s, node.path()));
                assert(!cst::error_free(g, s));
            }
            return true;
        }
        let count = cst::node_child_count(&node);
        let _ = cst::node_descendant_count(&node);
        let ghost rest = stack@;
        proof {
            assert(before =~= rest.push(node));
            lemma_walk_weight_push(rest, node);
        }
        let mut j: usize = 0;
        while j < count
            invariant
                j <= count,
                count == syntax_child_count(g, s, node.path()),
                node.grammar() == g,
                node.source() == s,
                syntax_path(g, s, node.path()),
                stack@.len() == rest.len() + j,
                forall|k: int| 0 <= k < rest.len() ==> #[trigger] stack@[k] == rest[k],
                forall|k: int|
                    0 <= k < rest.len() ==> (#[trigger] rest[k]).grammar() == g && rest[k].source() == s
                        && syntax_path(g, s, rest[k].path()),
                forall|k: int|
                    0 <= k < j ==> (#[trigger] stack@[rest.len() + k]).path() == node.path().push(k)
                        && stack@[rest.len() + k].grammar() == g && stack@[rest.len() + k].source() == s,
                walk_weight(stack@) == walk_weight(rest) + cst::children_descendants(g, s, node.path(), j as int),
            decreases count - j,
        {
            let child = cst::node_child(&node, j);
            proof {
                lemma_walk_weight_push(stack@, child);
            }
            stack.push(child);
            j = j + 1;
        }
        proof {
            assert forall|k: int| 0 <= k < stack@.len() implies (#[trigger] stack@[k]).grammar() == g
                && stack@[k].source() == s && syntax_path(g, s, stack@[k].path()) by {
                if k >= rest.len() {
                    let i = k - rest.len();
                    assert(stack@[rest.len() + i].path() == node.path().push(i));
                    lemma_child_path(g, s, node.path(), i);
                }
            }
            assert forall|q: Seq<int>| #[trigger] syntax_path(g, s, q) implies sound_at(g, s, q) || awaits(stack@, q) by {
                if !sound_at(g, s, q) {
                    let k = choose|k: int| 0 <= k < before.len() && #[trigger] prefix_of(before[k].path(), q);
                    if k < rest.len() {
                        assert(stack@[k] == rest[k]);
                        assert(prefix_of(stack@[k].path(), q));
                    } else {
                        let p = node.path();
                        assert(before[k] == node);
                        if q.len() == p.len() {
                            assert(q =~= q.take(p.len() as int));
                            assert(false);
                        } else {
                            let i = q[p.len() as int];
                            assert(q.take(p.len() as int) == p);
                            assert(0 <= i < syntax_child_count(g, s, q.take(p.len() as int)));
                            assert(stack@[rest.len() + i].path() == p.push(i));
                            assert(q.take(p.len() + 1 as int) =~= p.push(i));
                            assert(prefix_of(stack@[rest.len() + i].path(), q));
                        }
                    }
                }
            }
        }
    }
    proof {
        assert forall|q: Seq<int>| #[trigger] syntax_path(g, s, q) implies sound_at(g, s, q) by {
            if !sound_at(g, s, q) {
                assert(awaits(stack@, q));
            }
        }
    }
    false
}

/// The shape facts of a partially lifted arena.
closed spec fn partial_arena(nodes: Seq<NodeView>) -> bool {
    &&& nodes.len() >= 1 ==> nodes[0].parent is None
    &&& forall|i: int|
        #![trigger nodes[i].parent]
        0 < i < nodes.len() ==> {
            &&& nodes[i].parent matches Some(p)
            &&& p.0 < i
            &&& nodes[p.0 as int].children.contains(NodeId(i as usize))
        }
    &&& forall|i: int, k: int|
        #![trigger nodes[i].children[k]]
        0 <= i < nodes.len() && 0 <= k < nodes[i].children.len() ==> {
            &&& i < nodes[i].children[k].0 < nodes.len()
            &&& nodes[nodes[i].children[k].0 as int].parent == Some(NodeId(i as usize))
        }
    &&& forall|i: int, k1: int, k2: int|
        #![trigger nodes[i].children[k1], nodes[i].children[k2]]
        0 <= i < nodes.len() && 0 <= k1 < k2 < nodes[i].children.len() ==> nodes[i].children[k1].0
            < nodes[i].children[k2].0
    &&& follows_preorder(nodes)
}

/// Ancestry among the first nodes depends only on their parents.
proof fn lemma_anc_frame(s1: Seq<NodeView>, s2: Seq<NodeView>, a: NodeId, n: NodeId)
    requires
        n.0 < s1.len(),
        n.0 < s2.len(),
        forall|i: int| 0 <= i <= n.0 ==> #[trigger] s1[i].parent == s2[i].parent,
    ensures
        anc_in(s1, a, n) == anc_in(s2, a, n),
    decreases n.0,
{
    assert(s1[n.0 as int].parent == s2[n.0 as int].parent);
    if let Some(p) = s1[n.0 as int].parent {
        if p.0 < n.0 {
            lemma_anc_frame(s1, s2, a, p);
        }
    }
}

/// The lift's depth-first stack: every pending child's parent is an
/// ancestor-or-self of the last node lifted, and deeper entries' parents
/// are ancestors-or-self of shallower ones'.
closed spec fn stack_on_path<T>(nodes: Seq<NodeView>, stack: Seq<(T, Option<NodeId>, Option<u16>)>) -> bool {
    &&& nodes.len() > 0 ==> forall|k: int|
        0 <= k < stack.len() ==> ((#[trigger] stack[k]).1 matches Some(p) && p.0 < nodes.len() && anc_or_self(
            nodes,
            p,
            NodeId((nodes.len() - 1) as usize),
        ))
    &&& forall|k1: int, k2: int|
        0 <= k1 < k2 < stack.len() && (#[trigger] stack[k1]).1 is Some && (#[trigger] stack[k2]).1 is Some
            ==> anc_or_self(nodes, stack[k1].1.unwrap(), stack[k2].1.unwrap())
}

/// The positions of the first `n` children of the node at `p`.
pub open spec fn child_paths(p: Seq<int>, n: nat) -> Seq<Seq<int>> {
    Seq::new(n, |k: int| p.push(k))
}

/// The positions among `paths` that hold no extra (comment-like) node.
pub open spec fn kept_of(g: Seq<char>, s: Seq<char>, paths: Seq<Seq<int>>) -> Seq<Seq<int>> {
    paths.filter(|q: Seq<int>| !syntax_extra(g, s, q))
}

/// The children of the syntax node at `p` that a lift keeps: all but
/// the extras, in order.
pub open spec fn kept_children(g: Seq<char>, s: Seq<char>, p: Seq<int>) -> Seq<Seq<int>> {
    kept_of(g, s, child_paths(p, syntax_child_count(g, s, p)))
}

/// `n` carries the syntax node at `p`: its kind, symbol, namedness and
/// byte span.
pub open spec fn carries(g: Seq<char>, s: Seq<char>, n: NodeView, p: Seq<int>) -> bool {
    &&& n.kind == cst::syntax_kind(g, s, p)
    &&& n.kind_id == cst::syntax_kind_id(g, s, p)
    &&& n.named == cst::syntax_named(g, s, p)
    &&& n.start == cst::syntax_start(g, s, p)
    &&& n.end == cst::syntax_end(g, s, p)
}

/// `nodes` is the lift of the parse of `s` with the grammar named `g`,
/// arena node `i` standing for the syntax node at `pos[i]`: the root
/// first, each node carrying its syntax node's kind, symbol, namedness,
/// span and field, and each node's children standing for the syntax
/// node's non-extra children, in order. With the arena in pre-order
/// this fixes the arena: the non-extra nodes of the parse, pre-order.
pub open spec fn lifted_from(g: Seq<char>, s: Seq<char>, nodes: Seq<NodeView>, pos: Seq<Seq<int>>) -> bool {
    &&& nodes.len() >= 1
    &&& pos.len() == nodes.len()
    &&& pos[0] == Seq::<int>::empty()
    &&& nodes[0].field_id is None
    &&& forall|i: int| 0 <= i < nodes.len() ==> #[trigger] carries(g, s, nodes[i], pos[i])
    &&& forall|i: int| 0 < i < nodes.len() ==> (#[trigger] nodes[i]).field_id == syntax_field(g, s, pos[i])
    &&& forall|i: int|
        0 <= i < nodes.len() ==> (#[trigger] nodes[i]).children.map_values(|c: NodeId| pos[c.0 as int])
            == kept_children(g, s, pos[i])
}

/// `m` is what parsing `text` as `lang` gives: the parse has no error or
/// missing node and `m` is a well-formed tree over `text` whose arena is
/// the parse's lift.
pub open spec fn reparsed_as(lang: Lang, text: Seq<char>, m: TreeView) -> bool {
    &&& m.source == text
    &&& m.lang == lang
    &&& m.wf()
    &&& cst::error_free(lang.spec_name(), text)
    &&& exists|pos: Seq<Seq<int>>| lifted_from(lang.spec_name(), text, m.nodes, pos)
}

/// The positions still waiting on the lift's stack to become children
/// of `i`, in the order they will be popped.
spec fn pending<'a>(stack: Seq<(SyntaxNode<'a>, Option<NodeId>, Option<u16>)>, i: NodeId) -> Seq<Seq<int>>
    decreases stack.len(),
{
    if stack.len() == 0 {
        Seq::empty()
    } else {
        let rest = pending(stack.drop_last(), i);
        if stack.last().1 == Some(i) {
            seq![stack.last().0.path()] + rest
        } else {
            rest
        }
    }
}

proof fn lemma_pending_push<'a>(stack: Seq<(SyntaxNode<'a>, Option<NodeId>, Option<u16>)>, e: (SyntaxNode<'a>, Option<NodeId>, Option<u16>), i: NodeId)
    ensures
        pending(stack.push(e), i) == (if e.1 == Some(i) {
            seq![e.0.path()] + pending(stack, i)
        } else {
            pending(stack, i)
        }),
{
    assert(stack.push(e).drop_last() =~= stack);
}

proof fn lemma_pending_none<'a>(stack: Seq<(SyntaxNode<'a>, Option<NodeId>, Option<u16>)>, i: NodeId)
    requires
        forall|k: int| 0 <= k < stack.len() ==> (#[trigger] stack[k]).1 != Some(i),
    ensures
        pending(stack, i) == Seq::<Seq<int>>::empty(),
    decreases stack.len(),
{
    if stack.len() > 0 {
        let rest = stack.drop_last();
        assert forall|k: int| 0 <= k < rest.len() implies (#[trigger] rest[k]).1 != Some(i) by {
            assert(rest[k] == stack[k]);
        }
        lemma_pending_none(rest, i);
        assert(stack.last() == stack[stack.len() - 1]);
    }
}

proof fn lemma_kept_step(g: Seq<char>, s: Seq<char>, p: Seq<int>, n: nat)
    ensures
        kept_of(g, s, child_paths(p, n + 1)) == kept_of(g, s, child_paths(p, n)) + (if syntax_extra(g, s, p.push(n as int)) {
            Seq::<Seq<int>>::empty()
        } else {
            seq![p.push(n as int)]
        }),
{
    let all = child_paths(p, n + 1);
    assert(all.drop_last() =~= child_paths(p, n));
    assert(all.last() == p.push(n as int));
    let sub = kept_of(g, s, child_paths(p, n));
    reveal(Seq::filter);
    assert(kept_of(g, s, all) == (if !syntax_extra(g, s, all.last()) {
        kept_of(g, s, all.drop_last()).push(all.last())
    } else {
        kept_of(g, s, all.drop_last())
    }));
    if syntax_extra(g, s, p.push(n as int)) {
        assert(sub + Seq::<Seq<int>>::empty() =~= sub);
    } else {
        assert(sub + seq![p.push(n as int)] =~= sub.push(p.push(n as int)));
    }
}

/// The positions of the syntax nodes in stack entries.
spec fn stack_paths<'a>(es: Seq<(SyntaxNode<'a>, Option<NodeId>, Option<u16>)>) -> Seq<Seq<int>> {
    es.map_values(|e: (SyntaxNode<'a>, Option<NodeId>, Option<u16>)| e.0.path())
}

/// Two node views agree on everything but their children.
spec fn same_but_children(a: NodeView, b: NodeView) -> bool {
    &&& a.kind == b.kind
    &&& a.kind_id == b.kind_id
    &&& a.named == b.named
    &&& a.start == b.start
    &&& a.end == b.end
    &&& a.field_id == b.field_id
}

/// The descendant counts of the syntax nodes in stack entries, summed.
spec fn lift_weight<'a>(es: Seq<(SyntaxNode<'a>, Option<NodeId>, Option<u16>)>) -> nat
    decreases es.len(),
{
    if es.len() == 0 {
        0
    } else {
        lift_weight(es.drop_last()) + cst::syntax_descendants(
            es.last().0.grammar(),
            es.last().0.source(),
            es.last().0.path(),
        )
    }
}

proof fn lemma_lift_weight_push<'a>(
    es: Seq<(SyntaxNode<'a>, Option<NodeId>, Option<u16>)>,
    e: (SyntaxNode<'a>, Option<NodeId>, Option<u16>),
)
    ensures
        lift_weight(es.push(e)) == lift_weight(es) + cst::syntax_descendants(e.0.grammar(), e.0.source(), e.0.path()),
{
    assert(es.push(e).drop_last() =~= es);
}

/// What the lift has established so far: the lifted nodes carry their
/// syntax nodes, the stack holds positions of the same parse, and each
/// lifted node's children and its entries still on the stack together
/// stand for its kept children.
spec fn lift_progress<'a>(
    g: Seq<char>,
    s: Seq<char>,
    vn: Seq<NodeView>,
    pos: Seq<Seq<int>>,
    stack: Seq<(SyntaxNode<'a>, Option<NodeId>, Option<u16>)>,
    done: int,
) -> bool {
    &&& pos.len() == vn.len()
    &&& vn.len() >= 1 ==> pos[0] == Seq::<int>::empty() && vn[0].field_id is None
    &&& forall|i: int| 0 <= i < vn.len() ==> #[trigger] carries(g, s, vn[i], pos[i])
    &&& forall|i: int| 0 < i < vn.len() ==> (#[trigger] vn[i]).field_id == syntax_field(g, s, pos[i])
    &&& forall|k: int|
        0 <= k < stack.len() ==> (#[trigger] stack[k]).0.grammar() == g && stack[k].0.source() == s && (
        stack[k].1 matches Some(p) ==> p.0 < vn.len() && stack[k].2 == syntax_field(g, s, stack[k].0.path()))
    &&& forall|i: int|
        0 <= i < done ==> (#[trigger] vn[i]).children.map_values(|c: NodeId| pos[c.0 as int]) + pending(
            stack,
            NodeId(i as usize),
        ) == kept_children(g, s, pos[i])
}


/// Lifting the entry popped off the stack keeps the lift's progress for
/// the nodes lifted before it.
proof fn lemma_lift_node<'a>(
    g: Seq<char>,
    s: Seq<char>,
    old_nodes: Seq<NodeView>,
    vn: Seq<NodeView>,
    old_pos: Seq<Seq<int>>,
    full: Seq<(SyntaxNode<'a>, Option<NodeId>, Option<u16>)>,
    rest: Seq<(SyntaxNode<'a>, Option<NodeId>, Option<u16>)>,
    id: NodeId,
    node: SyntaxNode<'a>,
    parent: Option<NodeId>,
    field_id: Option<u16>,
)
    requires
        lift_progress(g, s, old_nodes, old_pos, full, old_nodes.len() as int),
        partial_arena(old_nodes),
        full == rest.push((node, parent, field_id)),
        id.0 == old_nodes.len(),
        vn.len() == old_nodes.len() + 1,
        carries(g, s, vn[id.0 as int], node.path()),
        vn[id.0 as int].field_id == field_id,
        vn[id.0 as int].children.len() == 0,
        old_nodes.len() == 0 ==> parent is None && field_id is None && node.path() == Seq::<int>::empty(),
        old_nodes.len() > 0 ==> parent is Some,
        forall|i: int| 0 <= i < id.0 ==> #[trigger] same_but_children(vn[i], old_nodes[i]),
        forall|i: int|
            0 <= i < id.0 && parent != Some(NodeId(i as usize)) ==> (#[trigger] vn[i]).children
                == old_nodes[i].children,
        parent matches Some(p) ==> vn[p.0 as int].children == old_nodes[p.0 as int].children.push(id),
    ensures
        lift_progress(g, s, vn, old_pos.push(node.path()), rest, id.0 as int),
        pending(rest, id) == Seq::<Seq<int>>::empty(),
{
    let pos = old_pos.push(node.path());
    let top = full.len() - 1;
    if id.0 > 0 {
        assert(same_but_children(vn[0], old_nodes[0]));
    }
    assert(full[top] == (node, parent, field_id));
    assert forall|k: int| 0 <= k < rest.len() implies (#[trigger] rest[k]).1 != Some(id) by {
        assert(rest[k] == full[k]);
    }
    lemma_pending_none(rest, id);
    assert forall|i: int| 0 <= i < vn.len() implies #[trigger] carries(g, s, vn[i], pos[i]) by {
        if i < id.0 {
            assert(same_but_children(vn[i], old_nodes[i]));
            assert(carries(g, s, old_nodes[i], old_pos[i]));
        }
    }
    assert forall|i: int| 0 < i < vn.len() implies (#[trigger] vn[i]).field_id == syntax_field(g, s, pos[i]) by {
        if i < id.0 {
            assert(same_but_children(vn[i], old_nodes[i]));
            assert(old_nodes[i].field_id == syntax_field(g, s, old_pos[i]));
        } else {
            assert(full[top].2 == syntax_field(g, s, full[top].0.path()));
        }
    }
    assert forall|k: int| 0 <= k < rest.len() implies (#[trigger] rest[k]).0.grammar() == g && rest[k].0.source()
        == s && (rest[k].1 matches Some(p) ==> p.0 < vn.len() && rest[k].2 == syntax_field(g, s, rest[k].0.path())) by {
        assert(rest[k] == full[k]);
    }
    assert forall|i: int| 0 <= i < id.0 implies (#[trigger] vn[i]).children.map_values(|c: NodeId| pos[c.0 as int]) + pending(
        rest,
        NodeId(i as usize),
    ) == kept_children(g, s, pos[i]) by {
        let ni = NodeId(i as usize);
        lemma_pending_push(rest, (node, parent, field_id), ni);
        assert(full =~= rest.push((node, parent, field_id)));
        let oc = old_nodes[i].children;
        let old_map = oc.map_values(|c: NodeId| old_pos[c.0 as int]);
        assert(old_map + pending(full, ni) == kept_children(g, s, old_pos[i]));
        assert(pos[i] == old_pos[i]);
        assert forall|k: int| 0 <= k < oc.len() implies #[trigger] oc[k].0 < old_nodes.len() by {
            assert(old_nodes[i].children[k] == oc[k]);
        }
        if parent == Some(ni) {
            assert(vn[i].children == oc.push(id));
            assert(vn[i].children.map_values(|c: NodeId| pos[c.0 as int]) =~= old_map.push(node.path()));
            assert(old_map.push(node.path()) + pending(rest, ni) =~= old_map + (seq![node.path()] + pending(rest, ni)));
        } else {
            assert(vn[i].children == oc);
            assert(vn[i].children.map_values(|c: NodeId| pos[c.0 as int]) =~= old_map);
        }
    }
}

/// Pushing a kept child of the newest node keeps the lift's progress
/// for the nodes before it.
proof fn lemma_push_kid<'a>(
    g: Seq<char>,
    s: Seq<char>,
    vn: Seq<NodeView>,
    pos: Seq<Seq<int>>,
    stack: Seq<(SyntaxNode<'a>, Option<NodeId>, Option<u16>)>,
    e: (SyntaxNode<'a>, Option<NodeId>, Option<u16>),
    id: NodeId,
)
    requires
        lift_progress(g, s, vn, pos, stack, id.0 as int),
        id.0 < vn.len(),
        e.1 == Some(id),
        e.0.grammar() == g,
        e.0.source() == s,
        e.2 == syntax_field(g, s, e.0.path()),
    ensures
        lift_progress(g, s, vn, pos, stack.push(e), id.0 as int),
{
    let st = stack.push(e);
    assert forall|k: int| 0 <= k < st.len() implies (#[trigger] st[k]).0.grammar() == g && st[k].0.source() == s && (
        st[k].1 matches Some(p) ==> p.0 < vn.len() && st[k].2 == syntax_field(g, s, st[k].0.path())) by {
        if k < stack.len() {
            assert(st[k] == stack[k]);
        }
    }
    assert forall|i: int| 0 <= i < id.0 implies (#[trigger] vn[i]).children.map_values(|c: NodeId| pos[c.0 as int]) + pending(
        st,
        NodeId(i as usize),
    ) == kept_children(g, s, pos[i]) by {
        lemma_pending_push(stack, e, NodeId(i as usize));
    }
}

/// Lifts the CST into arena nodes, pre-order, skipping `extra` nodes;
/// `None` only when the arena would outgrow its index type.
///
/// Iterative with an explicit stack — recursing per CST level blows the
/// call stack on deeply nested sources.
#[verifier::rlimit(60)]
fn lift(root: SyntaxNode) -> (nodes: Vec<NodeData>)
    requires
        root.path() == Seq::<int>::empty(),
    ensures
        nodes@.len() >= 1,
        partial_arena(view_nodes(nodes@)),
        exists|pos: Seq<Seq<int>>| lifted_from(root.grammar(), root.source(), view_nodes(nodes@), pos),
{
    let ghost g = root.grammar();
    let ghost s = root.source();
    let ghost mut pos: Seq<Seq<int>> = Seq::empty();
    let mut nodes: Vec<NodeData> = Vec::new();
    let mut stack: Vec<(SyntaxNode, Option<NodeId>, Option<u16>)> = Vec::new();
    let total = cst::node_descendant_count(&root);
    stack.push((root, None, None));
    proof {
        lemma_lift_weight_push(Seq::empty(), (root, None, None));
        assert(stack@ =~= Seq::<(SyntaxNode, Option<NodeId>, Option<u16>)>::empty().push((root, None, None)));
    }
    loop
        invariant
            partial_arena(view_nodes(nodes@)),
            nodes@.len() == 0 ==> stack@.len() == 1 && stack@[0].1 is None && stack@[0].2 is None
                && stack@[0].0.path() == Seq::<int>::empty() && stack@[0].0.grammar() == g
                && stack@[0].0.source() == s,
            stack_on_path(view_nodes(nodes@), stack@),
            lift_progress(g, s, view_nodes(nodes@), pos, stack@, nodes@.len() as int),
            nodes@.len() + lift_weight(stack@) <= total,
        ensures
            nodes@.len() >= 1,
            partial_arena(view_nodes(nodes@)),
            stack@.len() == 0,
            lift_progress(g, s, view_nodes(nodes@), pos, stack@, nodes@.len() as int),
        decreases usize::MAX - nodes@.len(),
    {
        let ghost full = stack@;
        let entry = stack.pop();
        let (node, parent, field_id) = match entry {
            Some(e) => e,
            None => break,
        };
        let _ = cst::node_descendant_count(&node);
        proof {
            assert(full =~= stack@.push((node, parent, field_id)));
            lemma_lift_weight_push(stack@, (node, parent, field_id));
            assert(full[full.len() - 1] == (node, parent, field_id));
            assert(full[full.len() - 1].0.grammar() == g && full[full.len() - 1].0.source() == s);
            assert(nodes@.len() < total);
        }
        let id = NodeId(nodes.len());
        let ghost old_nodes = view_nodes(nodes@);
        let ghost old_pos = pos;
        proof {
            assert(full =~= stack@.push((node, parent, field_id)));
            assert(full[full.len() - 1] == (node, parent, field_id));
            pos = pos.push(node.path());
        }
        nodes.push(
            NodeData {
                kind: cst::node_kind(&node),
                kind_id: cst::node_kind_id(&node),
                named: cst::node_is_named(&node),
                start: cst::node_start_byte(&node),
                end: cst::node_end_byte(&node),
                parent,
                children: Vec::new(),
                field_id,
            },
        );
        proof {
            assert(view_nodes(nodes@) =~= old_nodes.push(nodes@[id.0 as int].view_node()));
        }
        let ghost mid = view_nodes(nodes@);
        if let Some(p) = parent {
            let ghost before = view_nodes(nodes@);
            nodes[p.0].children.push(id);
            proof {
                let after = view_nodes(nodes@);
                assert(after.len() == before.len());
                assert forall|j: int| 0 <= j < after.len() && j != p.0 implies after[j] == before[j] by {}
                assert(after[p.0 as int].children == before[p.0 as int].children.push(id));
                assert(after[p.0 as int].parent == before[p.0 as int].parent);
                assert(same_but_children(after[p.0 as int], before[p.0 as int]));
                assert forall|i: int| 0 < i < after.len() implies {
                    &&& #[trigger] after[i].parent matches Some(q)
                    &&& q.0 < i
                    &&& after[q.0 as int].children.contains(NodeId(i as usize))
                } by {
                    if i == id.0 {
                        assert(after[p.0 as int].children.last() == id);
                    } else {
                        let q = before[i].parent.unwrap();
                        let k = choose|k: int| 0 <= k < before[q.0 as int].children.len() && before[q.0 as int].children[k] == NodeId(i as usize);
                        assert(after[q.0 as int].children[k] == NodeId(i as usize));
                    }
                }
            }
        }
        proof {
            let vn = view_nodes(nodes@);
            assert(vn.len() == old_nodes.len() + 1);
            assert forall|i: int| 0 <= i < old_nodes.len() implies #[trigger] vn[i].parent == old_nodes[i].parent by {
                if parent is Some && i == parent.unwrap().0 {
                } else {
                    assert(vn[i] == mid[i]);
                }
            }
            assert(vn[id.0 as int].parent == parent);
            if id.0 > 0 {
                assert(full.len() >= 1);
                let top = full.len() - 1;
                assert(full[top] == (node, parent, field_id));
                let p = parent.unwrap();
                assert(anc_or_self(old_nodes, p, NodeId((id.0 - 1) as usize)));
                lemma_anc_frame(old_nodes, vn, p, NodeId((id.0 - 1) as usize));
                assert forall|j: int| 0 < j < vn.len() implies (#[trigger] vn[j].parent matches Some(q)
                    && anc_or_self(vn, q, NodeId((j - 1) as usize))) by {
                    if j < id.0 {
                        assert(old_nodes[j].parent == vn[j].parent);
                        let q = old_nodes[j].parent.unwrap();
                        lemma_anc_frame(old_nodes, vn, q, NodeId((j - 1) as usize));
                    }
                }
                assert forall|k: int| 0 <= k < stack@.len() implies ((#[trigger] stack@[k]).1 matches Some(q) && q.0
                    < vn.len() && anc_or_self(vn, q, NodeId((vn.len() - 1) as usize))) by {
                    assert(stack@[k] == full[k]);
                    let q = full[k].1.unwrap();
                    assert(anc_or_self(old_nodes, q, p));
                    lemma_anc_frame(old_nodes, vn, q, p);
                }
                assert forall|k1: int, k2: int|
                    0 <= k1 < k2 < stack@.len() && (#[trigger] stack@[k1]).1 is Some && (#[trigger] stack@[k2]).1
                        is Some implies anc_or_self(vn, stack@[k1].1.unwrap(), stack@[k2].1.unwrap()) by {
                    assert(stack@[k1] == full[k1] && stack@[k2] == full[k2]);
                    assert(anc_or_self(old_nodes, full[k1].1.unwrap(), full[k2].1.unwrap()));
                    lemma_anc_frame(old_nodes, vn, full[k1].1.unwrap(), full[k2].1.unwrap());
                }
            } else {
                assert(stack@.len() == 0);
            }
            assert(stack_on_path(vn, stack@));
            assert(follows_preorder(vn));
            let top = full.len() - 1;
            assert(full[top] == (node, parent, field_id));
            assert(full[top].0.grammar() == g && full[top].0.source() == s);
            assert(mid[id.0 as int] == nodes@[id.0 as int].view_node()) by {
                assert(mid[id.0 as int] == view_nodes(nodes@)[id.0 as int]) by {
                    if parent is Some {
                        assert(parent.unwrap().0 < id.0);
                    }
                }
            }
            assert(vn[id.0 as int] == mid[id.0 as int]);
            assert(carries(g, s, vn[id.0 as int], node.path()));
            assert forall|i: int| 0 <= i < id.0 implies #[trigger] same_but_children(vn[i], old_nodes[i]) by {
                assert(mid[i] == old_nodes[i]);
                if parent == Some(NodeId(i as usize)) {
                } else {
                    assert(vn[i] == mid[i]);
                }
            }
            assert forall|i: int| 0 <= i < id.0 && parent != Some(NodeId(i as usize)) implies (#[trigger] vn[i]).children
                == old_nodes[i].children by {
                assert(mid[i] == old_nodes[i]);
                assert(vn[i] == mid[i]);
            }
            if old_nodes.len() > 0 {
                assert(full[top].1 is Some);
            }
            lemma_lift_node(g, s, old_nodes, vn, old_pos, full, stack@, id, node, parent, field_id);
        }
        let mut cursor = cst::node_walk(&node);
        let count = cst::node_child_count(&node);
        let mut kids: Vec<(SyntaxNode, Option<NodeId>, Option<u16>)> = Vec::new();
        let mut more = cst::cursor_goto_first_child(&mut cursor);
        let mut seen: usize = 0;
        while more && seen < count
            invariant
                forall|k: int| 0 <= k < kids@.len() ==> (#[trigger] kids@[k]).1 == Some(id),
                forall|k: int|
                    0 <= k < kids@.len() ==> (#[trigger] kids@[k]).0.grammar() == g && kids@[k].0.source() == s
                        && kids@[k].2 == syntax_field(g, s, kids@[k].0.path()),
                stack_paths(kids@) == kept_of(
                    g,
                    s,
                    child_paths(node.path(), seen as nat),
                ),
                count == syntax_child_count(g, s, node.path()),
                node.grammar() == g,
                node.source() == s,
                cursor.grammar() == g,
                cursor.source() == s,
                seen <= count,
                more ==> cursor.path() == node.path().push(seen as int) && cursor.depth() == 1,
                !more ==> seen == count,
                lift_weight(kids@) <= cst::children_descendants(g, s, node.path(), seen as int),
            decreases count - seen,
        {
            let child = cst::cursor_node(&cursor);
            let ghost before = kids@;
            if !cst::node_is_extra(&child) {
                let field = cst::cursor_field_id(&cursor);
                proof {
                    lemma_lift_weight_push(kids@, (child, Some(id), field));
                }
                kids.push((child, Some(id), field));
            }
            proof {
                lemma_kept_step(g, s, node.path(), seen as nat);
                assert(node.path().push(seen as int).drop_last() =~= node.path());
                if kids@.len() > before.len() {
                    assert(kids@ =~= before.push(kids@.last()));
                    assert(stack_paths(kids@) =~= stack_paths(before).push(child.path()));
                    assert(stack_paths(kids@) =~= stack_paths(before) + seq![child.path()]);
                } else {
                    assert(kids@ =~= before);
                    assert(stack_paths(kids@) =~= stack_paths(before) + Seq::<Seq<int>>::empty());
                }
            }
            more = cst::cursor_goto_next_sibling(&mut cursor);
            seen = seen + 1;
        }
        proof {
            assert(seen == count);
        }
        // Children go on the stack reversed so the leftmost child pops
        // first, giving pre-order arena indices and in-order children.
        let ghost popped = stack@;
        let mut k = kids.len();
        proof {
            assert(kids@.subrange(0, kids@.len() as int) =~= kids@);
        }
        while k > 0
            invariant
                k <= kids@.len(),
                forall|j: int| 0 <= j < kids@.len() ==> (#[trigger] kids@[j]).1 == Some(id),
                forall|j: int|
                    0 <= j < kids@.len() ==> (#[trigger] kids@[j]).0.grammar() == g && kids@[j].0.source() == s
                        && kids@[j].2 == syntax_field(g, s, kids@[j].0.path()),
                id.0 == nodes@.len() - 1,
                stack_on_path(view_nodes(nodes@), stack@),
                lift_progress(g, s, view_nodes(nodes@), pos, stack@, id.0 as int),
                pending(stack@, id) == stack_paths(kids@.subrange(k as int, kids@.len() as int)),
                lift_weight(stack@) + lift_weight(kids@.subrange(0, k as int)) == lift_weight(popped) + lift_weight(kids@),
            decreases k,
        {
            k = k - 1;
            let ghost before = stack@;
            proof {
                lemma_lift_weight_push(before, kids@[k as int]);
                lemma_lift_weight_push(kids@.subrange(0, k as int), kids@[k as int]);
                assert(kids@.subrange(0, k as int).push(kids@[k as int]) =~= kids@.subrange(0, k + 1));
            }
            stack.push(kids[k]);
            proof {
                let vn = view_nodes(nodes@);
                assert(stack@ == before.push(kids@[k as int]));
                assert(stack@.last().1 == Some(id));
                assert forall|j: int| 0 <= j < stack@.len() implies ((#[trigger] stack@[j]).1 matches Some(q) && q.0
                    < vn.len() && anc_or_self(vn, q, NodeId((vn.len() - 1) as usize))) by {
                    if j < before.len() {
                        assert(stack@[j] == before[j]);
                    }
                }
                assert forall|k1: int, k2: int|
                    0 <= k1 < k2 < stack@.len() && (#[trigger] stack@[k1]).1 is Some && (#[trigger] stack@[k2]).1
                        is Some implies anc_or_self(vn, stack@[k1].1.unwrap(), stack@[k2].1.unwrap()) by {
                    assert(stack@[k1] == before[k1]);
                    if k2 < before.len() {
                        assert(stack@[k2] == before[k2]);
                    }
                }
                lemma_push_kid(g, s, vn, pos, before, kids@[k as int], id);
                lemma_pending_push(before, kids@[k as int], id);
                assert(stack_paths(kids@.subrange(k as int, kids@.len() as int)) =~= seq![kids@[k as int].0.path()]
                    + stack_paths(kids@.subrange(k + 1, kids@.len() as int)));
            }
        }
        proof {
            let vn = view_nodes(nodes@);
            assert(kids@.subrange(0, kids@.len() as int) =~= kids@);
            assert(vn[id.0 as int].children.len() == 0);
            assert(vn[id.0 as int].children.map_values(|c: NodeId| pos[c.0 as int]) + pending(stack@, id) =~= pending(stack@, id));
            assert(pos[id.0 as int] == node.path());
            assert(lift_progress(g, s, vn, pos, stack@, id.0 + 1));
        }
    }
    proof {
        let vn = view_nodes(nodes@);
        assert forall|i: int| 0 <= i < vn.len() implies (#[trigger] vn[i]).children.map_values(|c: NodeId| pos[c.0 as int])
            == kept_children(g, s, pos[i]) by {
            lemma_pending_none(stack@, NodeId(i as usize));
            assert(vn[i].children.map_values(|c: NodeId| pos[c.0 as int]) + pending(stack@, NodeId(i as usize)) =~= vn[i].children.map_values(|c: NodeId| pos[c.0 as int]));
        }
        assert(lifted_from(g, s, vn, pos));
    }
    nodes
}

/// Computes every node's Merkle hash, children before parents: arena
/// order is pre-order, so walking indices in reverse hashes children
/// first.
fn compute_hashes(source: &str, nodes: &Vec<NodeData>) -> (hashes: Vec<u64>)
    requires
        partial_arena(view_nodes(nodes@)),
    ensures
        hashes@.len() == nodes@.len(),
        forall|i: int|
            #![trigger hashes@[i]]
            0 <= i < nodes@.len() ==> hashes@[i] == node_hash(
                nodes@[i].kind_id,
                (if nodes@[i].named && nodes@[i].children@.len() == 0 {
                    slice_of(source@, nodes@[i].start as int, nodes@[i].end as int)
                } else {
                    None
                }),
                nodes@[i].children@.map_values(|c: NodeId| hashes@[c.0 as int]),
            ),
{
    let n = nodes.len();
    let mut hashes: Vec<u64> = Vec::new();
    let mut i: usize = 0;
    while i < n
        invariant
            n == nodes@.len(),
            i <= n,
            hashes@.len() == i,
        decreases n - i,
    {
        hashes.push(0);
        i = i + 1;
    }
    let mut i = n;
    while i > 0
        invariant
            n == nodes@.len(),
            i <= n,
            hashes@.len() == n,
            partial_arena(view_nodes(nodes@)),
            forall|j: int|
                #![trigger hashes@[j]]
                i <= j < n ==> hashes@[j] == node_hash(
                    nodes@[j].kind_id,
                    (if nodes@[j].named && nodes@[j].children@.len() == 0 {
                        slice_of(source@, nodes@[j].start as int, nodes@[j].end as int)
                    } else {
                        None
                    }),
                    nodes@[j].children@.map_values(|c: NodeId| hashes@[c.0 as int]),
                ),
        decreases i,
    {
        i = i - 1;
        let node = &nodes[i];
        let ghost vn = view_nodes(nodes@);
        let mut child_hashes: Vec<u64> = Vec::new();
        let mut k: usize = 0;
        while k < node.children.len()
            invariant
                node == &nodes@[i as int],
                vn == view_nodes(nodes@),
                partial_arena(vn),
                i < n,
                n == nodes@.len(),
                hashes@.len() == n,
                k <= node.children@.len(),
                child_hashes@ =~= node.children@.subrange(0, k as int).map_values(|c: NodeId| hashes@[c.0 as int]),
            decreases node.children@.len() - k,
        {
            proof {
                assert(vn[i as int].children == node.children@);
                assert(vn[i as int].children[k as int] == node.children@[k as int]);
            }
            let c = node.children[k];
            child_hashes.push(hashes[c.0]);
            k = k + 1;
        }
        proof {
            assert(node.children@.subrange(0, k as int) =~= node.children@);
        }
        let h = hash_node(node.kind_id, label_of(source, node), child_hashes.as_slice());
        let ghost old_hashes = hashes@;
        hashes.set(i, h);
        proof {
            assert(hashes@ == old_hashes.update(i as int, h));
            assert forall|j: int| i < j < n implies #[trigger] hashes@[j] == old_hashes[j] by {}
            assert forall|j: int| i <= j < n implies nodes@[j].children@.map_values(
                |c: NodeId| hashes@[c.0 as int],
            ) =~= nodes@[j].children@.map_values(|c: NodeId| old_hashes[c.0 as int]) by {
                assert forall|k: int| #![trigger nodes@[j].children@[k]] 0 <= k < nodes@[j].children@.len() implies nodes@[j].children@.map_values(
                    |c: NodeId| hashes@[c.0 as int],
                )[k] == nodes@[j].children@.map_values(|c: NodeId| old_hashes[c.0 as int])[k] by {
                    assert(vn[j].children[k] == nodes@[j].children@[k]);
                    assert(nodes@[j].children@[k].0 > j);
                }
            }
        }
    }
    hashes
}

/// Parses an input file's text, naming `path` in a parse error.
pub fn parse_file(source: &str, path: &str, lang: Lang) -> (r: Result<Tree, Error>)
    ensures
        r matches Ok(t) ==> t@.source == source@ && t@.lang == lang,
        r is Ok <==> cst::error_free(lang.spec_name(), source@),
        r matches Ok(t) ==> exists|pos: Seq<Seq<int>>| lifted_from(lang.spec_name(), source@, t@.nodes, pos),
        r matches Err(e) ==> e matches Error::Parse { path: p, lang: name } && p@ == path@ && name@
            == lang.spec_name(),
{
    match Tree::parse(source, lang) {
        Ok(tree) => Ok(tree),
        Err(Error::Parse { lang: name, .. }) => Err(Error::Parse { path: String::from_str(path), lang: name }),
        Err(other) => Err(other),
    }
}

} // verus!
