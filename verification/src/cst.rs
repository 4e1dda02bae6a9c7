//! The boundary to tree-sitter: the grammar handles and the concrete
//! syntax tree that a parse hands back.

use vstd::prelude::*;

use crate::lang::Lang;

verus! {

#[verifier::external_type_specification]
#[verifier::external_body]
pub struct ExLanguage(tree_sitter::Language);

#[verifier::external_type_specification]
#[verifier::external_body]
pub struct ExParser(tree_sitter::Parser);

/// A parsed concrete syntax tree, held opaquely: its nodes are reached
/// through [`syntax_root`] and the node wrappers below. (tree-sitter's
/// tree type shares its name with this crate's [`crate::Tree`], so it is
/// carried inside this struct rather than declared directly.)
#[verifier::external_body]
pub struct Cst {
    syntax: tree_sitter::Tree,
}

#[verifier::external_type_specification]
#[verifier::external_body]
pub struct ExNode<'a>(tree_sitter::Node<'a>);

#[verifier::external_type_specification]
#[verifier::external_body]
pub struct ExTreeCursor<'a>(tree_sitter::TreeCursor<'a>);

/// `ext` could be an extension taken from `path`: it holds no dot, and
/// follows a dot somewhere in the path text.
pub open spec fn extension_in(path: Seq<char>, ext: Seq<char>) -> bool {
    &&& !ext.contains('.')
    &&& exists|i: int|
        0 <= i && i + 1 + ext.len() <= path.len() && path[i] == '.' && #[trigger] path.subrange(
            i + 1,
            i + 1 + ext.len(),
        ) == ext
}

/// `path`'s last dot sits at `dot`, inside its final `/`-separated
/// component and after that component's first character, with text
/// after it; and the path holds no `\\` or `:` (the separators and
/// prefixes only some platforms read).
pub open spec fn plain_name_dot(path: Seq<char>, dot: int) -> bool {
    &&& !path.contains('\\')
    &&& !path.contains(':')
    &&& 1 <= dot < path.len() - 1
    &&& path[dot] == '.'
    &&& path[dot - 1] != '/'
    &&& forall|j: int| dot < j < path.len() ==> path[j] != '.' && path[j] != '/'
}

/// `std::path::Path::extension` of the path `path`, as text (`None` also
/// when it is not valid UTF-8). The contract claims that a returned
/// extension holds no dot and follows a dot in the path, and — as std
/// documents it: the text after the file name's final dot, unless the
/// name starts with its only dot — that a path whose last component
/// holds a dot after its first character, with text after it, has that
/// text as its extension. For paths holding `\\` or `:`, which part of
/// the text is the file name depends on the platform, so whether an
/// extension is returned is left unsaid there.
#[verifier::external_body]
pub(crate) fn path_extension(path: &str) -> (r: Option<&str>)
    ensures
        r matches Some(e) ==> extension_in(path@, e@),
        r is None ==> forall|dot: int| !plain_name_dot(path@, dot),
        r matches Some(e) ==> forall|dot: int| #[trigger] plain_name_dot(path@, dot) ==> e@ == path@.subrange(dot + 1, path@.len() as int),
{
    std::path::Path::new(path).extension().and_then(|ext| ext.to_str())
}

/// `tree_sitter_rust::NODE_TYPES`: the grammar's `node-types.json` text.
/// Claims nothing of the result.
#[verifier::external_body]
pub(crate) fn rust_node_types() -> &'static str {
    tree_sitter_rust::NODE_TYPES
}

/// `tree_sitter_java::NODE_TYPES`: the grammar's `node-types.json` text.
/// Claims nothing of the result.
#[verifier::external_body]
pub(crate) fn java_node_types() -> &'static str {
    tree_sitter_java::NODE_TYPES
}

/// `tree_sitter_json::NODE_TYPES`: the grammar's `node-types.json` text.
/// Claims nothing of the result.
#[verifier::external_body]
pub(crate) fn json_node_types() -> &'static str {
    tree_sitter_json::NODE_TYPES
}

/// A grammar handle, with the name of the language it parses.
pub struct Grammar {
    language: tree_sitter::Language,
    name: Ghost<Seq<char>>,
}

impl Grammar {
    /// The canonical name of the language this grammar parses.
    pub closed spec fn name(&self) -> Seq<char> {
        self.name@
    }

    /// The tree-sitter handle itself.
    pub fn into_language(self) -> (r: tree_sitter::Language) {
        self.language
    }
}

/// `tree_sitter::Language::new` on `tree_sitter_rust::LANGUAGE`: Rust's
/// grammar. Claims only which language the handle is for.
#[verifier::external_body]
pub(crate) fn rust_language() -> (r: Grammar)
    ensures
        r.name() == Lang::Rust.spec_name(),
{
    Grammar { language: tree_sitter::Language::new(tree_sitter_rust::LANGUAGE), name: Ghost(Lang::Rust.spec_name()) }
}

/// `tree_sitter::Language::new` on `tree_sitter_java::LANGUAGE`: Java's
/// grammar. Claims only which language the handle is for.
#[verifier::external_body]
pub(crate) fn java_language() -> (r: Grammar)
    ensures
        r.name() == Lang::Java.spec_name(),
{
    Grammar { language: tree_sitter::Language::new(tree_sitter_java::LANGUAGE), name: Ghost(Lang::Java.spec_name()) }
}

/// `tree_sitter::Language::new` on `tree_sitter_json::LANGUAGE`: JSON's
/// grammar. Claims only which language the handle is for.
#[verifier::external_body]
pub(crate) fn json_language() -> (r: Grammar)
    ensures
        r.name() == Lang::Json.spec_name(),
{
    Grammar { language: tree_sitter::Language::new(tree_sitter_json::LANGUAGE), name: Ghost(Lang::Json.spec_name()) }
}

/// `tree_sitter::Language::field_id_for_name` of the grammar named
/// `grammar`, as a plain integer.
pub uninterp spec fn grammar_field_id(grammar: Seq<char>, field: Seq<char>) -> Option<u16>;

/// `tree_sitter::Language::field_id_for_name`: the grammar's number for
/// the field called `name`, as a plain integer; claimed to be the named
/// result for the grammar and the field name.
#[verifier::external_body]
pub(crate) fn field_id_for_name(grammar: &Grammar, name: &str) -> (r: Option<u16>)
    ensures
        r == grammar_field_id(grammar.name(), name@),
{
    grammar.language.field_id_for_name(name).map(|id| id.get())
}

// What a parse produces is named below as a function of the grammar's
// name, the source text and a node's position: the child indices that
// lead to it from the root. A parser with no previous tree, no timeout
// and no included ranges gives the same tree for the same grammar and
// text, so each of these is determined by those three values.

/// `tree_sitter::Node::kind` of the node at `path`.
pub uninterp spec fn syntax_kind(grammar: Seq<char>, source: Seq<char>, path: Seq<int>) -> Seq<char>;

/// `tree_sitter::Node::kind_id` of the node at `path`.
pub uninterp spec fn syntax_kind_id(grammar: Seq<char>, source: Seq<char>, path: Seq<int>) -> u16;

/// `tree_sitter::Node::is_named` of the node at `path`.
pub uninterp spec fn syntax_named(grammar: Seq<char>, source: Seq<char>, path: Seq<int>) -> bool;

/// `tree_sitter::Node::is_extra` of the node at `path`.
pub uninterp spec fn syntax_extra(grammar: Seq<char>, source: Seq<char>, path: Seq<int>) -> bool;

/// `tree_sitter::Node::is_error` of the node at `path`.
pub uninterp spec fn syntax_error(grammar: Seq<char>, source: Seq<char>, path: Seq<int>) -> bool;

/// `tree_sitter::Node::is_missing` of the node at `path`.
pub uninterp spec fn syntax_missing(grammar: Seq<char>, source: Seq<char>, path: Seq<int>) -> bool;

/// `tree_sitter::Node::start_byte` of the node at `path`.
pub uninterp spec fn syntax_start(grammar: Seq<char>, source: Seq<char>, path: Seq<int>) -> int;

/// `tree_sitter::Node::end_byte` of the node at `path`.
pub uninterp spec fn syntax_end(grammar: Seq<char>, source: Seq<char>, path: Seq<int>) -> int;

/// `tree_sitter::Node::child_count` of the node at `path`.
pub uninterp spec fn syntax_child_count(grammar: Seq<char>, source: Seq<char>, path: Seq<int>) -> nat;

/// `tree_sitter::TreeCursor::field_id` with the cursor on the node at
/// `path`: the field that node fills in its parent.
pub uninterp spec fn syntax_field(grammar: Seq<char>, source: Seq<char>, path: Seq<int>) -> Option<u16>;

/// `tree_sitter::Node::descendant_count` of the node at `path`: the
/// node itself and all nodes below it.
pub uninterp spec fn syntax_descendants(grammar: Seq<char>, source: Seq<char>, path: Seq<int>) -> nat;

/// The descendant counts of the first `k` children of the node at `path`,
/// summed.
pub open spec fn children_descendants(grammar: Seq<char>, source: Seq<char>, path: Seq<int>, k: int) -> nat
    decreases k,
{
    if k <= 0 {
        0
    } else {
        children_descendants(grammar, source, path, k - 1) + syntax_descendants(grammar, source, path.push(k - 1))
    }
}

/// `path` leads from the root through existing children: each index is
/// below the child count of the node it continues from.
pub open spec fn syntax_path(grammar: Seq<char>, source: Seq<char>, path: Seq<int>) -> bool {
    forall|k: int|
        0 <= k < path.len() ==> 0 <= #[trigger] path[k] < syntax_child_count(grammar, source, path.take(k))
}

/// No node of the parse is an error or a missing node.
pub open spec fn error_free(grammar: Seq<char>, source: Seq<char>) -> bool {
    forall|path: Seq<int>|
        #[trigger] syntax_path(grammar, source, path) ==> !syntax_error(grammar, source, path)
            && !syntax_missing(grammar, source, path)
}

/// A parser, with the name of the grammar it was given, if any.
pub struct SyntaxParser {
    parser: tree_sitter::Parser,
    grammar: Ghost<Option<Seq<char>>>,
}

impl SyntaxParser {
    pub closed spec fn grammar(&self) -> Option<Seq<char>> {
        self.grammar@
    }
}

/// A concrete syntax tree, with the grammar and text it was parsed from.
pub struct Parsed {
    cst: Cst,
    grammar: Ghost<Seq<char>>,
    source: Ghost<Seq<char>>,
}

impl Parsed {
    pub closed spec fn grammar(&self) -> Seq<char> {
        self.grammar@
    }

    pub closed spec fn source(&self) -> Seq<char> {
        self.source@
    }
}

/// A node of a parse, with its position in it.
#[derive(Clone, Copy)]
pub struct SyntaxNode<'a> {
    node: tree_sitter::Node<'a>,
    grammar: Ghost<Seq<char>>,
    source: Ghost<Seq<char>>,
    path: Ghost<Seq<int>>,
}

impl<'a> SyntaxNode<'a> {
    pub closed spec fn grammar(&self) -> Seq<char> {
        self.grammar@
    }

    pub closed spec fn source(&self) -> Seq<char> {
        self.source@
    }

    pub closed spec fn path(&self) -> Seq<int> {
        self.path@
    }
}

/// A tree cursor, with the position of the node under it and how far
/// below the node it was started on that lies.
pub struct SyntaxCursor<'a> {
    cursor: tree_sitter::TreeCursor<'a>,
    grammar: Ghost<Seq<char>>,
    source: Ghost<Seq<char>>,
    path: Ghost<Seq<int>>,
    depth: Ghost<nat>,
}

impl<'a> SyntaxCursor<'a> {
    pub closed spec fn grammar(&self) -> Seq<char> {
        self.grammar@
    }

    pub closed spec fn source(&self) -> Seq<char> {
        self.source@
    }

    pub closed spec fn path(&self) -> Seq<int> {
        self.path@
    }

    pub closed spec fn depth(&self) -> nat {
        self.depth@
    }
}

/// `tree_sitter::Parser::new`: a parser with no grammar yet.
#[verifier::external_body]
pub(crate) fn new_parser() -> (r: SyntaxParser)
    ensures
        r.grammar() is None,
{
    SyntaxParser { parser: tree_sitter::Parser::new(), grammar: Ghost(None) }
}

/// `tree_sitter::Parser::set_language`, reporting success. Every
/// [`Grammar`] is one of the three bundled grammars, built for ABI
/// versions 15, 14 and 14, inside the range 13 to 15 this tree-sitter
/// accepts; so the call succeeds and the parser parses with the grammar.
#[verifier::external_body]
pub(crate) fn parser_set_language(parser: &mut SyntaxParser, grammar: &Grammar) -> (r: bool)
    ensures
        r,
        final(parser).grammar() == Some(grammar.name()),
{
    let ok = parser.parser.set_language(&grammar.language).is_ok();
    if ok {
        parser.grammar = Ghost(Some(grammar.name()));
    }
    ok
}

/// `tree_sitter::Parser::parse` on a fresh text (no previous tree): the
/// parse of `source` with the parser's grammar. tree-sitter returns none
/// only without a grammar, or on a timeout or cancellation, and these
/// parsers have neither.
#[verifier::external_body]
pub(crate) fn parser_parse(parser: &mut SyntaxParser, source: &str) -> (r: Option<Parsed>)
    requires
        old(parser).grammar() is Some,
    ensures
        final(parser).grammar() == old(parser).grammar(),
        r is Some,
        r matches Some(t) ==> t.grammar() == old(parser).grammar().unwrap() && t.source() == source@,
{
    let grammar = parser.grammar;
    parser.parser.parse(source, None).map(|syntax| Parsed { cst: Cst { syntax }, grammar: Ghost(grammar@.unwrap()), source: Ghost(source@) })
}

/// `tree_sitter::Tree::root_node`: the node at the empty position.
#[verifier::external_body]
pub(crate) fn syntax_root<'a>(tree: &'a Parsed) -> (r: SyntaxNode<'a>)
    ensures
        r.grammar() == tree.grammar(),
        r.source() == tree.source(),
        r.path() == Seq::<int>::empty(),
{
    SyntaxNode { node: tree.cst.syntax.root_node(), grammar: tree.grammar, source: tree.source, path: Ghost(Seq::empty()) }
}

/// `tree_sitter::Node::kind`: the grammar kind name.
#[verifier::external_body]
pub(crate) fn node_kind(node: &SyntaxNode) -> (r: &'static str)
    ensures
        r@ == syntax_kind(node.grammar(), node.source(), node.path()),
{
    node.node.kind()
}

/// `tree_sitter::Node::kind_id`: the grammar symbol.
#[verifier::external_body]
pub(crate) fn node_kind_id(node: &SyntaxNode) -> (r: u16)
    ensures
        r == syntax_kind_id(node.grammar(), node.source(), node.path()),
{
    node.node.kind_id()
}

/// `tree_sitter::Node::is_named`.
#[verifier::external_body]
pub(crate) fn node_is_named(node: &SyntaxNode) -> (r: bool)
    ensures
        r == syntax_named(node.grammar(), node.source(), node.path()),
{
    node.node.is_named()
}

/// `tree_sitter::Node::is_extra`.
#[verifier::external_body]
pub(crate) fn node_is_extra(node: &SyntaxNode) -> (r: bool)
    ensures
        r == syntax_extra(node.grammar(), node.source(), node.path()),
{
    node.node.is_extra()
}

/// `tree_sitter::Node::is_error`.
#[verifier::external_body]
pub(crate) fn node_is_error(node: &SyntaxNode) -> (r: bool)
    ensures
        r == syntax_error(node.grammar(), node.source(), node.path()),
{
    node.node.is_error()
}

/// `tree_sitter::Node::is_missing`.
#[verifier::external_body]
pub(crate) fn node_is_missing(node: &SyntaxNode) -> (r: bool)
    ensures
        r == syntax_missing(node.grammar(), node.source(), node.path()),
{
    node.node.is_missing()
}

/// `tree_sitter::Node::start_byte`.
#[verifier::external_body]
pub(crate) fn node_start_byte(node: &SyntaxNode) -> (r: usize)
    ensures
        r == syntax_start(node.grammar(), node.source(), node.path()),
{
    node.node.start_byte()
}

/// `tree_sitter::Node::end_byte`.
#[verifier::external_body]
pub(crate) fn node_end_byte(node: &SyntaxNode) -> (r: usize)
    ensures
        r == syntax_end(node.grammar(), node.source(), node.path()),
{
    node.node.end_byte()
}

/// `tree_sitter::Node::child_count`.
#[verifier::external_body]
pub(crate) fn node_child_count(node: &SyntaxNode) -> (r: usize)
    ensures
        r == syntax_child_count(node.grammar(), node.source(), node.path()),
{
    node.node.child_count()
}

/// `tree_sitter::Node::descendant_count`: the node and everything below
/// it, which is one more than its children's descendant counts summed.
#[verifier::external_body]
pub(crate) fn node_descendant_count(node: &SyntaxNode) -> (r: usize)
    ensures
        r == syntax_descendants(node.grammar(), node.source(), node.path()),
        r == 1 + children_descendants(
            node.grammar(),
            node.source(),
            node.path(),
            syntax_child_count(node.grammar(), node.source(), node.path()) as int,
        ),
{
    node.node.descendant_count()
}

/// `tree_sitter::Node::child`: the child at index `i`, which exists for
/// an index below the child count.
#[verifier::external_body]
pub(crate) fn node_child<'a>(node: &SyntaxNode<'a>, i: usize) -> (r: SyntaxNode<'a>)
    requires
        i < syntax_child_count(node.grammar(), node.source(), node.path()),
    ensures
        r.grammar() == node.grammar(),
        r.source() == node.source(),
        r.path() == node.path().push(i as int),
{
    SyntaxNode { node: node.node.child(i).unwrap(), grammar: node.grammar, source: node.source, path: Ghost(node.path@.push(i as int)) }
}

/// `tree_sitter::Node::walk`: a cursor on the node, which it treats as
/// its root.
#[verifier::external_body]
pub(crate) fn node_walk<'a>(node: &SyntaxNode<'a>) -> (r: SyntaxCursor<'a>)
    ensures
        r.grammar() == node.grammar(),
        r.source() == node.source(),
        r.path() == node.path(),
        r.depth() == 0,
{
    SyntaxCursor { cursor: node.node.walk(), grammar: node.grammar, source: node.source, path: node.path, depth: Ghost(0) }
}

/// `tree_sitter::TreeCursor::goto_first_child`: moves to the first child
/// and reports true exactly when the node has children.
#[verifier::external_body]
pub(crate) fn cursor_goto_first_child(cursor: &mut SyntaxCursor) -> (r: bool)
    ensures
        final(cursor).grammar() == old(cursor).grammar(),
        final(cursor).source() == old(cursor).source(),
        r == (syntax_child_count(old(cursor).grammar(), old(cursor).source(), old(cursor).path()) > 0),
        r ==> final(cursor).path() == old(cursor).path().push(0) && final(cursor).depth() == old(cursor).depth() + 1,
        !r ==> final(cursor).path() == old(cursor).path() && final(cursor).depth() == old(cursor).depth(),
{
    let moved = cursor.cursor.goto_first_child();
    if moved {
        cursor.path = Ghost(cursor.path@.push(0));
        cursor.depth = Ghost(cursor.depth@ + 1);
    }
    moved
}

/// `tree_sitter::TreeCursor::goto_next_sibling`: below the cursor's own
/// root, moves to the next child of the same parent and reports true
/// exactly when there is one; on the cursor's root it reports false.
#[verifier::external_body]
pub(crate) fn cursor_goto_next_sibling(cursor: &mut SyntaxCursor) -> (r: bool)
    ensures
        final(cursor).grammar() == old(cursor).grammar(),
        final(cursor).source() == old(cursor).source(),
        final(cursor).depth() == old(cursor).depth(),
        r == (old(cursor).depth() > 0 && old(cursor).path().last() + 1 < syntax_child_count(
            old(cursor).grammar(),
            old(cursor).source(),
            old(cursor).path().drop_last(),
        )),
        r ==> final(cursor).path() == old(cursor).path().drop_last().push(old(cursor).path().last() + 1),
        !r ==> final(cursor).path() == old(cursor).path(),
{
    let moved = cursor.cursor.goto_next_sibling();
    if moved {
        cursor.path = Ghost(cursor.path@.drop_last().push(cursor.path@.last() + 1));
    }
    moved
}

/// `tree_sitter::TreeCursor::node`: the node under the cursor.
#[verifier::external_body]
pub(crate) fn cursor_node<'a>(cursor: &SyntaxCursor<'a>) -> (r: SyntaxNode<'a>)
    ensures
        r.grammar() == cursor.grammar(),
        r.source() == cursor.source(),
        r.path() == cursor.path(),
{
    SyntaxNode { node: cursor.cursor.node(), grammar: cursor.grammar, source: cursor.source, path: cursor.path }
}

/// `tree_sitter::TreeCursor::field_id`, as the raw field number: below
/// the cursor's own root, the field its node fills in its parent.
#[verifier::external_body]
pub(crate) fn cursor_field_id(cursor: &SyntaxCursor) -> (r: Option<u16>)
    ensures
        cursor.depth() > 0 ==> r == syntax_field(cursor.grammar(), cursor.source(), cursor.path()),
{
    cursor.cursor.field_id().map(|id| id.get())
}

} // verus!
