use d3j::{Error, Lang, Tree};

fn parse_rust(src: &str) -> Result<Tree, Error> {
    let lang = Lang::by_name("rust").ok_or(Error::UnknownLanguage { path: "rust".into() })?;
    Tree::parse(src, lang)
}

#[test]
fn identical_subtrees_hash_equal_across_positions() -> Result<(), Error> {
    let t = parse_rust("fn a() { x(); }\nfn b() { x(); }")?;
    let calls: Vec<_> = t
        .nodes()
        .into_iter()
        .filter(|&n| t.kind(n) == "call_expression")
        .collect();
    assert_eq!(calls.len(), 2);
    assert_eq!(calls.first().map(|&n| t.hash(n)), calls.last().map(|&n| t.hash(n)));
    Ok(())
}

#[test]
fn equal_sources_hash_equal_across_trees() -> Result<(), Error> {
    let a = parse_rust("fn main() { x(); }")?;
    let b = parse_rust("fn main() { x(); }")?;
    assert_eq!(a.hash(a.root()), b.hash(b.root()));
    Ok(())
}

#[test]
fn different_labels_hash_differently() -> Result<(), Error> {
    let a = parse_rust("fn main() { x(); }")?;
    let b = parse_rust("fn main() { y(); }")?;
    assert_ne!(a.hash(a.root()), b.hash(b.root()));
    Ok(())
}

#[test]
fn different_structure_hashes_differently() -> Result<(), Error> {
    let a = parse_rust("fn main() { x(); }")?;
    let b = parse_rust("fn main() { x(); x(); }")?;
    assert_ne!(a.hash(a.root()), b.hash(b.root()));
    Ok(())
}
