use d3j::tree::parse_file;
use d3j::{Error, Lang, Tree};

fn lang(name: &str) -> Result<Lang, Error> {
    Lang::by_name(name).ok_or(Error::UnknownLanguage { path: name.into() })
}

fn parse_rust(src: &str) -> Result<Tree, Error> {
    Tree::parse(src, lang("rust")?)
}

#[test]
fn lifts_a_simple_function() -> Result<(), Error> {
    let t = parse_rust("fn main() {}")?;
    let root = t.root();
    assert_eq!(t.kind(root), "source_file");
    // An identifier leaf carries its source text as its label.
    let ids: Vec<_> = t.nodes().into_iter().filter(|&n| t.kind(n) == "identifier").collect();
    assert_eq!(ids.len(), 1);
    assert_eq!(ids.first().and_then(|&n| t.label(n)), Some("main"));
    Ok(())
}

#[test]
fn anonymous_tokens_are_lifted_without_labels() -> Result<(), Error> {
    let t = parse_rust("fn f() -> i32 { 1 + 2 }")?;
    let plus: Vec<_> = t.nodes().into_iter().filter(|&n| t.kind(n) == "+").collect();
    assert_eq!(plus.len(), 1);
    assert_eq!(plus.first().and_then(|&n| t.label(n)), None);
    Ok(())
}

#[test]
fn comments_are_excluded() -> Result<(), Error> {
    let t = parse_rust("// hello\nfn main() {}")?;
    assert!(t.nodes().into_iter().all(|n| t.kind(n) != "line_comment"));
    Ok(())
}

#[test]
fn parse_errors_are_rejected() -> Result<(), Error> {
    assert!(Tree::parse("fn main( {", lang("rust")?).is_err());
    Ok(())
}

#[test]
fn missing_nodes_are_rejected() -> Result<(), Error> {
    // An unclosed mod recovers via a zero-width MISSING `}` with no
    // ERROR node anywhere, so this exercises the is_missing check.
    assert!(Tree::parse("mod m { fn f() {} ", lang("rust")?).is_err());
    Ok(())
}

#[test]
fn spans_reconstruct_source() -> Result<(), Error> {
    let src = "fn main() {}";
    let t = parse_rust(src)?;
    assert_eq!(src.get(t.span(t.root())), Some(src));
    Ok(())
}

#[test]
fn parent_and_children_are_consistent() -> Result<(), Error> {
    let t = parse_rust("fn main() {}")?;
    let root = t.root();
    assert_eq!(t.parent(root), None);
    assert!(!t.children(root).is_empty());
    for &child in t.children(root) {
        assert_eq!(t.parent(child), Some(root));
    }
    Ok(())
}

#[test]
fn nodes_iterates_in_preorder() -> Result<(), Error> {
    let t = Tree::parse("[1, 2]", lang("json")?)?;
    assert_eq!(t.nodes().first().copied(), Some(t.root()));
    // Pre-order visits the numbers in source order.
    let labels: Vec<_> = t
        .nodes()
        .into_iter()
        .filter(|&n| t.kind(n) == "number")
        .map(|n| t.label(n))
        .collect();
    assert_eq!(labels, vec![Some("1"), Some("2")]);
    Ok(())
}

#[test]
fn field_ids_record_the_slot_within_the_parent() -> Result<(), Error> {
    let lang = lang("rust")?;
    let t = Tree::parse("fn main() {}", lang)?;
    let name_field = lang.language().field_id_for_name("name").map(|f| f.get());
    assert!(name_field.is_some());
    let ident = t.nodes().into_iter().find(|&n| t.kind(n) == "identifier");
    assert_eq!(ident.and_then(|n| t.field_id(n)), name_field);
    // The function item itself sits in no field of source_file.
    let item = t.nodes().into_iter().find(|&n| t.kind(n) == "function_item");
    assert_eq!(item.and_then(|n| t.field_id(n)), None);
    Ok(())
}

#[test]
fn kind_ids_distinguish_kinds_not_positions() -> Result<(), Error> {
    let t = parse_rust("fn a() {}\nfn b() {}")?;
    let kind_ids: Vec<_> = t
        .nodes()
        .into_iter()
        .filter(|&n| t.kind(n) == "function_item")
        .map(|n| t.kind_id(n))
        .collect();
    assert_eq!(kind_ids.len(), 2);
    assert_eq!(kind_ids.first(), kind_ids.last());
    assert!(kind_ids.first() != Some(&t.kind_id(t.root())));
    Ok(())
}

#[test]
fn parse_errors_name_the_language_and_the_file() -> Result<(), Error> {
    match Tree::parse("[1,", lang("json")?) {
        Err(Error::Parse { path, lang }) => {
            assert_eq!(path, "");
            assert_eq!(lang, "json");
        }
        other => panic!("expected a parse error, got {other:?}"),
    }
    match parse_file("[1,", "in.json", lang("json")?) {
        Err(Error::Parse { path, lang }) => {
            assert_eq!(path, "in.json");
            assert_eq!(lang, "json");
        }
        other => panic!("expected a parse error, got {other:?}"),
    }
    let t = parse_file("[1]", "in.json", lang("json")?)?;
    assert_eq!(t.lang(), Lang::Json);
    assert_eq!(t.source_slice(0..t.source_len()), Some("[1]"));
    assert_eq!(t.source_slice(2..1), None);
    assert_eq!(t.source_slice(0..9), None);
    Ok(())
}

#[test]
fn node_ids_round_trip_through_indices() {
    let id = d3j::NodeId::from_index(7);
    assert_eq!(id.index(), 7);
    assert_eq!(d3j::NodeId::from_index(id.index()), id);
}

#[test]
fn node_count_matches_the_preorder_listing() -> Result<(), Error> {
    let t = parse_rust("fn main() { x(); }")?;
    assert_eq!(t.nodes().len(), t.node_count());
    for (i, n) in t.nodes().into_iter().enumerate() {
        assert_eq!(n.index(), i);
        if n != t.root() {
            let parent = t.parent(n).expect("non-root nodes have a parent");
            assert!(parent.index() < n.index());
            assert!(t.children(parent).contains(&n));
        }
    }
    Ok(())
}
