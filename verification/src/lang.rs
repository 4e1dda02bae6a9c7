//! The supported grammars and their `node-types.json` metadata.

use vstd::prelude::*;

use vstd::string::StringExecFns;

use crate::cst::extension_in;
use crate::error::Error;
use crate::text::str_eq;

verus! {

/// A supported grammar.
///
/// Matching on extensions and names is case-sensitive: `foo.RS` is not
/// detected as rust.
#[derive(Debug, Clone, Copy, PartialEq, Eq, Hash, Structural)]
pub enum Lang {
    Rust,
    Java,
    Json,
}

impl Lang {
    /// The language registered for a file extension.
    pub open spec fn spec_from_extension(ext: Seq<char>) -> Option<Lang> {
        if ext == "rs"@ {
            Some(Lang::Rust)
        } else if ext == "java"@ {
            Some(Lang::Java)
        } else if ext == "json"@ {
            Some(Lang::Json)
        } else {
            None
        }
    }

    /// The language with a canonical name.
    pub open spec fn spec_by_name(name: Seq<char>) -> Option<Lang> {
        if name == "rust"@ {
            Some(Lang::Rust)
        } else if name == "java"@ {
            Some(Lang::Java)
        } else if name == "json"@ {
            Some(Lang::Json)
        } else {
            None
        }
    }

    /// The canonical name.
    pub open spec fn spec_name(self) -> Seq<char> {
        match self {
            Lang::Rust => "rust"@,
            Lang::Java => "java"@,
            Lang::Json => "json"@,
        }
    }

    /// Node kinds whose child order carries no meaning: concurrent
    /// insertions under them commute.
    pub open spec fn spec_is_commutative(self, kind: Seq<char>) -> bool {
        match self {
            Lang::Rust => kind == "source_file"@ || kind == "declaration_list"@ || kind
                == "use_list"@ || kind == "trait_bounds"@,
            Lang::Java => kind == "program"@ || kind == "class_body"@ || kind == "interface_body"@
                || kind == "type_list"@ || kind == "throws"@,
            Lang::Json => kind == "object"@,
        }
    }

    /// `lang` is registered for an extension that `path` could carry.
    pub open spec fn detected_from(path: Seq<char>, lang: Lang) -> bool {
        exists|ext: Seq<char>| extension_in(path, ext) && Lang::spec_from_extension(ext) == Some(lang)
    }

    /// Detects the language of `path` from its extension; `None` when
    /// the path has no extension or no grammar is registered for it.
    /// A detected language is registered for the extension the path
    /// ends in; [`Lang::from_extension`] decides which one.
    pub fn detect(path: &str) -> (r: Option<Lang>)
        ensures
            r matches Some(lang) ==> Lang::detected_from(path@, lang),
            forall|dot: int|
                #[trigger] crate::cst::plain_name_dot(path@, dot) ==> r == Lang::spec_from_extension(
                    path@.subrange(dot + 1, path@.len() as int),
                ),
    {
        match crate::cst::path_extension(path) {
            Some(ext) => Lang::from_extension(ext),
            None => None,
        }
    }

    /// The language registered for a file extension (without the dot).
    pub fn from_extension(ext: &str) -> (r: Option<Lang>)
        ensures
            r == Lang::spec_from_extension(ext@),
    {
        if str_eq(ext, "rs") {
            Some(Lang::Rust)
        } else if str_eq(ext, "java") {
            Some(Lang::Java)
        } else if str_eq(ext, "json") {
            Some(Lang::Json)
        } else {
            None
        }
    }

    /// Looks up a language by its canonical name (`"rust"`, `"java"`,
    /// `"json"`).
    pub fn by_name(name: &str) -> (r: Option<Lang>)
        ensures
            r == Lang::spec_by_name(name@),
    {
        if str_eq(name, "rust") {
            Some(Lang::Rust)
        } else if str_eq(name, "java") {
            Some(Lang::Java)
        } else if str_eq(name, "json") {
            Some(Lang::Json)
        } else {
            None
        }
    }

    /// The language's canonical name.
    pub fn name(self) -> (r: &'static str)
        ensures
            r@ == self.spec_name(),
    {
        match self {
            Lang::Rust => "rust",
            Lang::Java => "java",
            Lang::Json => "json",
        }
    }

    /// The tree-sitter grammar, for parsing source into a `Tree`.
    pub fn language(self) -> tree_sitter::Language {
        self.grammar().into_language()
    }

    /// The grammar handle, known to parse this language.
    pub(crate) fn grammar(self) -> (r: crate::cst::Grammar)
        ensures
            r.name() == self.spec_name(),
    {
        match self {
            Lang::Rust => crate::cst::rust_language(),
            Lang::Java => crate::cst::java_language(),
            Lang::Json => crate::cst::json_language(),
        }
    }

    /// The grammar's bundled `node-types.json` text, for loading its
    /// [`NodeTypes`].
    pub fn node_types_json(self) -> &'static str {
        match self {
            Lang::Rust => crate::cst::rust_node_types(),
            Lang::Java => crate::cst::java_node_types(),
            Lang::Json => crate::cst::json_node_types(),
        }
    }

    /// Whether the kind's child order carries no meaning in this
    /// grammar, so that insertions under it commute.
    pub fn is_commutative(self, kind: &str) -> (r: bool)
        ensures
            r == self.spec_is_commutative(kind@),
    {
        match self {
            Lang::Rust => str_eq(kind, "source_file") || str_eq(kind, "declaration_list") || str_eq(
                kind,
                "use_list",
            ) || str_eq(kind, "trait_bounds"),
            Lang::Java => str_eq(kind, "program") || str_eq(kind, "class_body") || str_eq(
                kind,
                "interface_body",
            ) || str_eq(kind, "type_list") || str_eq(kind, "throws"),
            Lang::Json => str_eq(kind, "object"),
        }
    }
}

/// A child type reference: a node kind name plus whether it is a named
/// node, as opposed to an anonymous token.
#[derive(Debug, Clone)]
pub struct TypeRef {
    pub kind: String,
    pub named: bool,
}

/// How many of which types a field or the children slot accepts.
#[derive(Debug, Clone)]
pub struct Arity {
    pub required: bool,
    pub multiple: bool,
    pub types: Vec<TypeRef>,
}

/// One node kind's field, children, and subtype constraints.
#[derive(Debug, Clone)]
pub struct NodeType {
    /// Named field slots, with their field names.
    pub fields: Vec<(String, Arity)>,
    /// The unordered, catch-all children slot, if the grammar defines
    /// one for this kind.
    pub children: Option<Arity>,
    /// For supertypes, the concrete kinds it stands in for.
    pub subtypes: Vec<TypeRef>,
}

/// One `node-types.json` array entry, before its kind name is split out
/// as a lookup key.
#[derive(Debug, Clone)]
pub struct Entry {
    pub kind: String,
    pub named: bool,
    pub fields: Vec<(String, Arity)>,
    pub children: Option<Arity>,
    pub subtypes: Vec<TypeRef>,
}

/// The lookup key and metadata an entry contributes, or nothing for an
/// anonymous token.
pub open spec fn entry_contribution(e: Entry) -> Seq<(Seq<char>, NodeType)> {
    if e.named {
        seq![(e.kind@, NodeType { fields: e.fields, children: e.children, subtypes: e.subtypes })]
    } else {
        seq![]
    }
}

/// What a sequence of entries contributes, in order.
pub open spec fn named_entries(es: Seq<Entry>) -> Seq<(Seq<char>, NodeType)>
    decreases es.len(),
{
    if es.len() == 0 {
        seq![]
    } else {
        named_entries(es.drop_last()) + entry_contribution(es.last())
    }
}

/// The index of the last pair keyed `key`, or -1.
pub open spec fn last_index<V>(pairs: Seq<(Seq<char>, V)>, key: Seq<char>) -> int
    decreases pairs.len(),
{
    if pairs.len() == 0 {
        -1
    } else if pairs.last().0 == key {
        pairs.len() - 1
    } else {
        last_index(pairs.drop_last(), key)
    }
}

/// The value of the last pair keyed `key`.
pub open spec fn lookup<V>(pairs: Seq<(Seq<char>, V)>, key: Seq<char>) -> Option<V> {
    let i = last_index(pairs, key);
    if i < 0 {
        None
    } else {
        Some(pairs[i].1)
    }
}

proof fn lemma_last_index_bounds<V>(pairs: Seq<(Seq<char>, V)>, key: Seq<char>)
    ensures
        -1 <= last_index(pairs, key) < pairs.len(),
        last_index(pairs, key) >= 0 ==> pairs[last_index(pairs, key)].0 == key,
    decreases pairs.len(),
{
    if pairs.len() > 0 {
        lemma_last_index_bounds(pairs.drop_last(), key);
    }
}

/// The view of a vector of keyed pairs: keys as text.
pub open spec fn key_view<V>(pairs: Seq<(String, V)>) -> Seq<(Seq<char>, V)> {
    pairs.map_values(|p: (String, V)| (p.0@, p.1))
}

/// Finds the value of the last pair keyed `key`.
fn find_last<'a, V>(pairs: &'a Vec<(String, V)>, key: &str) -> (r: Option<&'a V>)
    ensures
        match r {
            Some(v) => lookup(key_view(pairs@), key@) == Some(*v),
            None => lookup(key_view(pairs@), key@) is None,
        },
{
    let ghost kv = key_view(pairs@);
    let mut i = pairs.len();
    proof {
        assert(kv.subrange(0, i as int) =~= kv);
    }
    while i > 0
        invariant
            i <= pairs@.len(),
            kv == key_view(pairs@),
            last_index(kv, key@) == last_index(kv.subrange(0, i as int), key@),
        decreases i,
    {
        let ghost prefix = kv.subrange(0, i as int);
        assert(prefix.drop_last() =~= kv.subrange(0, i - 1));
        assert(prefix.last().0 == pairs@[i - 1].0@);
        if str_eq(pairs[i - 1].0.as_str(), key) {
            proof {
                lemma_last_index_bounds(kv, key@);
            }
            return Some(&pairs[i - 1].1);
        }
        i = i - 1;
    }
    proof {
        lemma_last_index_bounds(kv, key@);
    }
    None
}

impl NodeType {
    /// The arity of the named field, if the kind has that field.
    pub fn field(&self, name: &str) -> (r: Option<&Arity>)
        ensures
            match r {
                Some(a) => lookup(key_view(self.fields@), name@) == Some(*a),
                None => lookup(key_view(self.fields@), name@) is None,
            },
    {
        find_last(&self.fields, name)
    }
}

/// Parsed `node-types.json`: grammar metadata keyed by node kind name.
///
/// Models only each kind's fixed field slots, its catch-all children
/// slot, and (for supertypes) its subtypes.
#[derive(Debug, Clone)]
pub struct NodeTypes {
    by_kind: Vec<(String, NodeType)>,
}

impl NodeTypes {
    /// The kinds in registration order, with their metadata.
    pub closed spec fn entries(self) -> Seq<(Seq<char>, NodeType)> {
        key_view(self.by_kind@)
    }

    /// The metadata a lookup of `kind` yields.
    pub open spec fn spec_get(self, kind: Seq<char>) -> Option<NodeType> {
        lookup(self.entries(), kind)
    }

    /// Collects the named entries. A kind name can appear twice — once
    /// named (carrying fields, children, subtypes) and once as an
    /// anonymous token with no metadata — so anonymous entries are
    /// dropped and cannot shadow the real one.
    pub fn from_entries(entries: Vec<Entry>) -> (r: NodeTypes)
        ensures
            r.entries() == named_entries(entries@),
    {
        let mut by_kind: Vec<(String, NodeType)> = Vec::new();
        let mut i: usize = 0;
        let n = entries.len();
        let mut rest = entries;
        let ghost all = rest@;
        proof {
            assert(all.subrange(0, 0) =~= seq![]);
        }
        while i < n
            invariant
                n == all.len(),
                i <= n,
                rest@ == all.subrange(i as int, n as int),
                key_view(by_kind@) == named_entries(all.subrange(0, i as int)),
            decreases n - i,
        {
            let e = rest.remove(0);
            proof {
                assert(e == all[i as int]);
                assert(all.subrange(0, i + 1).drop_last() =~= all.subrange(0, i as int));
                assert(rest@ =~= all.subrange(i + 1, n as int));
            }
            if e.named {
                let node_type = NodeType { fields: e.fields, children: e.children, subtypes: e.subtypes };
                by_kind.push((e.kind, node_type));
                proof {
                    assert(key_view(by_kind@) =~= named_entries(all.subrange(0, i + 1)));
                }
            } else {
                proof {
                    assert(named_entries(all.subrange(0, i + 1)) =~= named_entries(all.subrange(0, i as int)));
                }
            }
            i = i + 1;
        }
        proof {
            assert(all.subrange(0, n as int) =~= all);
        }
        NodeTypes { by_kind }
    }

    /// The field, children, and subtype constraints for `kind`, if the
    /// grammar defines it.
    pub fn get(&self, kind: &str) -> (r: Option<&NodeType>)
        ensures
            match r {
                Some(t) => self.spec_get(kind@) == Some(*t),
                None => self.spec_get(kind@) is None,
            },
    {
        find_last(&self.by_kind, kind)
    }

    /// Whether `kind` has fixed field slots, as opposed to (or alongside)
    /// an unordered children list.
    pub fn has_fields(&self, kind: &str) -> (r: bool)
        ensures
            r == (self.spec_get(kind@) matches Some(t) && t.fields@.len() > 0),
    {
        match self.get(kind) {
            Some(node_type) => node_type.fields.len() > 0,
            None => false,
        }
    }
}

/// Resolves the language: an explicit `--lang` name wins, otherwise the
/// file extension decides. Fails with [`Error::UnknownLanguage`] naming
/// whichever was consulted.
pub fn resolve_lang(path: &str, lang: Option<&str>) -> (r: Result<Lang, Error>)
    ensures
        match lang {
            Some(name) => match Lang::spec_by_name(name@) {
                Some(l) => r == Ok::<Lang, Error>(l),
                None => r matches Err(Error::UnknownLanguage { path: p }) && p@ == name@,
            },
            None => {
                &&& r matches Ok(l) ==> Lang::detected_from(path@, l)
                &&& r matches Err(e) ==> e matches Error::UnknownLanguage { path: p } && p@ == path@
                &&& forall|dot: int|
                    #[trigger] crate::cst::plain_name_dot(path@, dot) ==> match Lang::spec_from_extension(
                        path@.subrange(dot + 1, path@.len() as int),
                    ) {
                        Some(l) => r == Ok::<Lang, Error>(l),
                        None => r is Err,
                    }
            },
        },
{
    match lang {
        Some(name) => match Lang::by_name(name) {
            Some(l) => Ok(l),
            None => Err(Error::UnknownLanguage { path: String::from_str(name) }),
        },
        None => match Lang::detect(path) {
            Some(l) => Ok(l),
            None => Err(Error::UnknownLanguage { path: String::from_str(path) }),
        },
    }
}

/// The kinds whose child order carries no meaning, named as the grammars
/// name them, and no others: for Rust the crate's and a module's item
/// lists, a braced import list and a trait's bound list; for Java a
/// compilation unit, class and interface bodies, type lists and `throws`
/// clauses; for JSON an object.
pub proof fn lemma_commutative_kinds(kind: Seq<char>)
    ensures
        Lang::Rust.spec_is_commutative(kind) <==> (kind == "source_file"@ || kind == "declaration_list"@ || kind
            == "use_list"@ || kind == "trait_bounds"@),
        Lang::Java.spec_is_commutative(kind) <==> (kind == "program"@ || kind == "class_body"@ || kind
            == "interface_body"@ || kind == "type_list"@ || kind == "throws"@),
        Lang::Json.spec_is_commutative(kind) <==> kind == "object"@,
{
}

} // verus!
