use d3j::diff::Shape;
use d3j::merge::{merge, MergeOutcome};
use d3j::synth::{is_whitespace, synthesize, LeafSequence};
use d3j::{Error, Lang, Tree};

fn parse(src: &str, lang_name: &str) -> Result<Tree, Error> {
    let lang = Lang::by_name(lang_name).ok_or(Error::UnknownLanguage { path: lang_name.into() })?;
    Tree::parse(src, lang)
}

fn merge_text(lang: &str, o: &str, a: &str, b: &str) -> Result<String, Error> {
    let o = parse(o, lang)?;
    let a = parse(a, lang)?;
    let b = parse(b, lang)?;
    match merge(&o, &a, &b)? {
        MergeOutcome::Merged(m) => Ok(synthesize(&m, &o, &a, &b)),
        MergeOutcome::Conflicts(conflicts) => {
            panic!("expected a clean merge, got conflicts: {conflicts:?}");
        }
    }
}

#[test]
fn one_sided_edits_reproduce_the_editing_branch_byte_for_byte() -> Result<(), Error> {
    let o = "// header\nfn a() {\n    x(); // call\n}\n\nfn b() {\n    y();\n}\n";
    let a = "// header\nfn a() {\n    x(); // call\n}\n\nfn b() {\n    y();\n    z();\n}\n";
    let text = merge_text("rust", o, a, o)?;
    assert_eq!(text, a);
    Ok(())
}

#[test]
fn figure_2_3_output_parses_to_the_expected_shape() -> Result<(), Error> {
    let text = merge_text("json", "[1, 2, 3]", "[1, 2, 4, 5, 3]", "[1, 6, 3]")?;
    let merged = parse(&text, "json")?;
    let expected = parse("[1, 6, 4, 5, 3]", "json")?;
    assert_eq!(Shape::of(&merged), Shape::of(&expected));
    Ok(())
}

#[test]
fn deleted_regions_do_not_resurface() -> Result<(), Error> {
    let text = merge_text("json", "[1, 2, 3]", "[1, 3]", "[1, 3]")?;
    assert!(!text.contains('2'), "{text:?}");
    let merged = parse(&text, "json")?;
    let expected = parse("[1, 3]", "json")?;
    assert_eq!(Shape::of(&merged), Shape::of(&expected));
    Ok(())
}

#[test]
fn identical_inputs_reproduce_the_file_byte_for_byte() -> Result<(), Error> {
    // Trailing trivia after the last leaf travels...
    let with_tail = "fn a() {} // tail\n";
    assert_eq!(merge_text("rust", with_tail, with_tail, with_tail)?, with_tail);
    // ...and a file without a final newline does not grow one.
    let bare = "[1, 2]";
    assert_eq!(merge_text("json", bare, bare, bare)?, bare);
    Ok(())
}

#[test]
fn grafted_functions_pin_exact_bytes() -> Result<(), Error> {
    // The O run's first leaf has no predecessor to borrow trivia from,
    // so a single space joins it to the graft ("{} fn keep").
    let o = "fn keep() {\n    x();\n}\n";
    let a = "/// From A.\nfn top() {}\n\nfn keep() {\n    x();\n}\n";
    let b = "fn keep() {\n    x();\n}\n\n/// From B.\nfn bottom() {}\n";
    let text = merge_text("rust", o, a, b)?;
    assert_eq!(
        text,
        "/// From A.\nfn top() {} fn keep() {\n    x();\n}\n\n/// From B.\nfn bottom() {}\n"
    );
    Ok(())
}

#[test]
fn a_reformat_only_branch_keeps_its_layout_around_the_other_branchs_edit() -> Result<(), Error> {
    // A pretty-prints without touching the tree; B bumps a value.
    let o = r#"{"name": "d3j", "version": 1, "debug": false}"#;
    let a = "{\n  \"name\": \"d3j\",\n  \"version\": 1,\n  \"debug\": false\n}\n";
    let b = r#"{"name": "d3j", "version": 2, "debug": false}"#;
    let text = merge_text("json", o, a, b)?;
    assert_eq!(text, "{\n  \"name\": \"d3j\",\n  \"version\": 2,\n  \"debug\": false\n}\n");
    Ok(())
}

#[test]
fn doc_comments_travel_with_grafted_functions() -> Result<(), Error> {
    let o = "fn keep() {\n    x();\n}\n";
    let a = "/// From A.\nfn top() {}\n\nfn keep() {\n    x();\n}\n";
    let b = "fn keep() {\n    x();\n}\n\n/// From B.\nfn bottom() {}\n";
    let text = merge_text("rust", o, a, b)?;
    assert!(text.contains("/// From A."), "{text:?}");
    assert!(text.contains("/// From B."), "{text:?}");
    let merged = parse(&text, "rust")?;
    let names: Vec<_> = merged
        .nodes()
        .into_iter()
        .filter(|&n| merged.kind(n) == "identifier")
        .filter_map(|n| merged.label(n))
        .collect();
    assert_eq!(names, vec!["top", "keep", "x", "bottom"]);
    Ok(())
}

#[test]
fn whitespace_follows_the_unicode_property() {
    assert!(is_whitespace(' '));
    assert!(is_whitespace('\n'));
    assert!(is_whitespace('\t'));
    assert!(is_whitespace('\u{85}'));
    assert!(is_whitespace('\u{3000}'));
    assert!(!is_whitespace('x'));
    assert!(!is_whitespace('\u{200b}'));
}

#[test]
fn leaf_sequence_numbers_leaves_in_source_order() -> Result<(), Error> {
    let tree = parse("[1, 2]", "json")?;
    let leaves = LeafSequence::of(&tree);
    // [ 1 , 2 ]
    assert_eq!(leaves.len(), 5);
    let labels: Vec<Option<&str>> = (0..leaves.len())
        .filter_map(|i| leaves.node_at(i))
        .map(|n| tree.label(n))
        .collect();
    assert_eq!(labels, vec![None, Some("1"), None, Some("2"), None]);
    let first = leaves.node_at(0).map(|n| tree.kind(n));
    assert_eq!(first, Some("["));
    assert_eq!(leaves.node_at(5), None);
    assert_eq!(leaves.position(tree.root()), None);
    for i in 0..leaves.len() {
        let node = leaves.node_at(i);
        assert_eq!(node.and_then(|n| leaves.position(n)), Some(i));
    }
    Ok(())
}
