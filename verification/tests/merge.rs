use d3j::check::check;
use d3j::diff::Shape;
use d3j::merge::{dedupe_run, merge, merge_to_text, merge_to_text_with, Conflict, MergeOutcome, MergeResult};
use d3j::rules::element_groups;
use d3j::{Error, Lang, NodeId, Tree};

fn parse(src: &str, lang_name: &str) -> Result<Tree, Error> {
    let lang = Lang::by_name(lang_name).ok_or(Error::UnknownLanguage { path: lang_name.into() })?;
    Tree::parse(src, lang)
}

/// Merges and asserts the outcome is structurally the expected
/// source, and that the expected source passes the checker.
fn assert_merges(lang: &str, o: &str, a: &str, b: &str, expected: &str) -> Result<(), Error> {
    let o = parse(o, lang)?;
    let a = parse(a, lang)?;
    let b = parse(b, lang)?;
    let expected = parse(expected, lang)?;
    match merge(&o, &a, &b)? {
        MergeOutcome::Merged(m) => {
            assert_eq!(m.shape(&o, &a, &b), Shape::of(&expected));
        }
        MergeOutcome::Conflicts(conflicts) => panic!("unexpected conflicts: {conflicts:?}"),
    }
    let report = check(&o, &a, &b, &expected);
    assert!(report.is_correct(), "{:?}", report.violations);
    Ok(())
}

#[test]
fn figure_2_3_disjoint_edits_both_land() -> Result<(), Error> {
    assert_merges(
        "json",
        "[1, 2, 3]",
        "[1, 2, 4, 5, 3]",
        "[1, 6, 3]",
        "[1, 6, 4, 5, 3]",
    )
}

#[test]
fn identical_insertions_dedupe() -> Result<(), Error> {
    assert_merges("json", "[1, 2]", "[1, 9, 2]", "[1, 9, 2]", "[1, 9, 2]")
}

#[test]
fn duplicate_identical_insertions_dedupe_pairwise() -> Result<(), Error> {
    // Two equal insertions per branch: each A graft absorbs
    // exactly one B twin, so the pair lands twice, not four times.
    assert_merges("json", "[1]", "[1, 9, 9]", "[1, 9, 9]", "[1, 9, 9]")?;
    // The same with a single-hash slot (no separators): dedupe
    // must match twins by hash, not merely consume any entry.
    assert_merges(
        "rust",
        "fn f() { }",
        "fn f() { x(); x(); }",
        "fn f() { x(); x(); }",
        "fn f() { x(); x(); }",
    )
}

#[test]
fn a_graft_does_not_resurrect_what_the_other_branch_deleted() -> Result<(), Error> {
    // A wraps y() in a block; B deletes y() outright. The block
    // survives from A, but the statement inside it died in B and
    // must not be pulled into the graft.
    assert_merges(
        "rust",
        "fn f() { x(); y(); }",
        "fn f() { x(); { y(); } }",
        "fn f() { x(); }",
        "fn f() { x(); { } }",
    )
}

#[test]
fn a_reformatting_only_branch_wins_the_bytes() -> Result<(), Error> {
    // B reformats without changing the tree, so no relabel fires;
    // the reformat preference adopts B's layout instead of
    // silently discarding it with O's stale bytes.
    let o_text = "fn keep() {\n    x(y);\n}\n";
    let b_text = "fn keep(  ) {  x( y ) ;  }\n";
    let o = parse(o_text, "rust")?;
    let a = parse(o_text, "rust")?;
    let b = parse(b_text, "rust")?;
    match merge_to_text(&o, &a, &b)? {
        MergeResult::Merged(text) => assert_eq!(text, b_text),
        MergeResult::Conflicts(conflicts) => panic!("unexpected conflicts: {conflicts:?}"),
    }
    Ok(())
}

#[test]
fn concurrent_distinct_reformats_prefer_a() -> Result<(), Error> {
    // Span synthesis cannot honor two reformats of the same code
    // at once; the tie breaks to A.
    let o_text = "fn keep() {\n    x(y);\n}\n";
    let a_text = "fn keep() { x(y); }\n";
    let b_text = "fn keep(  ) {  x( y ) ;  }\n";
    let o = parse(o_text, "rust")?;
    let a = parse(a_text, "rust")?;
    let b = parse(b_text, "rust")?;
    match merge_to_text(&o, &a, &b)? {
        MergeResult::Merged(text) => assert_eq!(text, a_text),
        MergeResult::Conflicts(conflicts) => panic!("unexpected conflicts: {conflicts:?}"),
    }
    Ok(())
}

#[test]
fn identical_deletions_merge_silently() -> Result<(), Error> {
    assert_merges("json", "[1, 2]", "[1]", "[1]", "[1]")
}

#[test]
fn rename_and_insert_in_different_functions_both_land() -> Result<(), Error> {
    assert_merges(
        "rust",
        "fn a() { x(); }\nfn b() { y(); }",
        "fn c() { x(); }\nfn b() { y(); }",
        "fn a() { x(); }\nfn b() { y(); z(); }",
        "fn c() { x(); }\nfn b() { y(); z(); }",
    )
}

#[test]
fn one_sided_edits_pass_through() -> Result<(), Error> {
    assert_merges("json", "[1, 2]", "[1, 2, 3]", "[1, 2]", "[1, 2, 3]")?;
    assert_merges("json", "[1, 2]", "[1, 2]", "[2]", "[2]")
}

fn assert_conflicts(
    lang: &str,
    o: &str,
    a: &str,
    b: &str,
    rule: &str,
) -> Result<Vec<Conflict>, Error> {
    let o = parse(o, lang)?;
    let a = parse(a, lang)?;
    let b = parse(b, lang)?;
    match merge(&o, &a, &b)? {
        MergeOutcome::Merged(m) => panic!("unexpected merge: {:?}", m.shape(&o, &a, &b)),
        MergeOutcome::Conflicts(conflicts) => {
            assert!(
                conflicts.iter().any(|c| c.rule == rule),
                "expected a {rule} conflict: {conflicts:?}"
            );
            Ok(conflicts)
        }
    }
}

#[test]
fn conflicting_renames_conflict() -> Result<(), Error> {
    let conflicts = assert_conflicts(
        "rust",
        "fn a() {}",
        "fn b() {}",
        "fn c() {}",
        "relabel-relabel",
    )?;
    let a = parse("fn b() {}", "rust")?;
    let witnessed = conflicts.iter().any(|c| {
        c.span_a
            .clone()
            .and_then(|span| a.source_slice(span))
            .is_some_and(|text| text == "b")
    });
    assert!(witnessed);
    Ok(())
}

#[test]
fn identical_renames_still_merge() -> Result<(), Error> {
    assert_merges("rust", "fn a() {}", "fn b() {}", "fn b() {}", "fn b() {}")
}

#[test]
fn conflicting_insertions_at_one_slot_conflict() -> Result<(), Error> {
    let conflicts = assert_conflicts(
        "rust",
        "fn f() { x(); }",
        "fn f() { x(); y(); }",
        "fn f() { x(); z(); }",
        "insert-insert",
    )?;
    // The conflict carries both branches' inserted spans.
    let a = parse("fn f() { x(); y(); }", "rust")?;
    let witnessed = conflicts.iter().any(|c| {
        c.span_a
            .clone()
            .and_then(|span| a.source_slice(span))
            .is_some_and(|text| text.contains("y()"))
            && c.span_b.is_some()
    });
    assert!(witnessed);
    Ok(())
}

#[test]
fn different_value_insertions_at_one_slot_conflict() -> Result<(), Error> {
    assert_conflicts("json", "[1]", "[1, 9]", "[1, 8]", "insert-insert")?;
    Ok(())
}

#[test]
fn same_key_inserted_into_different_objects_merges() -> Result<(), Error> {
    // Same name under different parents is no collision.
    assert_merges(
        "json",
        r#"{"x": {"a": 1}, "y": {"b": 2}}"#,
        r#"{"x": {"k": 1, "a": 1}, "y": {"b": 2}}"#,
        r#"{"x": {"a": 1}, "y": {"b": 2, "k": 2}}"#,
        r#"{"x": {"k": 1, "a": 1}, "y": {"b": 2, "k": 2}}"#,
    )
}

#[test]
fn relabel_and_delete_in_different_functions_merge() -> Result<(), Error> {
    // The rule must not fire when the relabel is outside the
    // deleted subtree: A deletes fn b, B renames a call in fn a.
    assert_merges(
        "rust",
        "fn a() { x(); }\nfn b() { y(); }",
        "fn a() { x(); }",
        "fn a() { z(); }\nfn b() { y(); }",
        "fn a() { z(); }",
    )?;
    // And mirrored: A renames while B deletes, exercising the
    // rule's other arm.
    assert_merges(
        "rust",
        "fn a() { x(); }\nfn b() { y(); }",
        "fn a() { z(); }\nfn b() { y(); }",
        "fn a() { x(); }",
        "fn a() { z(); }",
    )
}

#[test]
fn insert_and_delete_in_different_functions_merge() -> Result<(), Error> {
    assert_merges(
        "rust",
        "fn a() { x(); }\nfn b() { y(); }",
        "fn a() { x(); z(); }\nfn b() { y(); }",
        "fn a() { x(); }",
        "fn a() { x(); z(); }",
    )?;
    // And mirrored: A deletes fn b while B grows fn a. The
    // insert-delete rule must not fire on unrelated deletions in
    // either direction.
    assert_merges(
        "rust",
        "fn a() { x(); }\nfn b() { y(); }",
        "fn a() { x(); }",
        "fn a() { x(); z(); }\nfn b() { y(); }",
        "fn a() { x(); z(); }",
    )
}

#[test]
fn merge_to_text_passes_clean_scenarios() -> Result<(), Error> {
    let o = parse("[1, 2, 3]", "json")?;
    let a = parse("[1, 2, 4, 5, 3]", "json")?;
    let b = parse("[1, 6, 3]", "json")?;
    match merge_to_text(&o, &a, &b)? {
        MergeResult::Merged(text) => {
            let merged = parse(&text, "json")?;
            let expected = parse("[1, 6, 4, 5, 3]", "json")?;
            assert_eq!(Shape::of(&merged), Shape::of(&expected));
        }
        MergeResult::Conflicts(conflicts) => panic!("unexpected conflicts: {conflicts:?}"),
    }
    Ok(())
}

#[test]
fn merge_to_text_passes_conflicts_through() -> Result<(), Error> {
    let o = parse("fn a() {}", "rust")?;
    let a = parse("fn b() {}", "rust")?;
    let b = parse("fn c() {}", "rust")?;
    let MergeResult::Conflicts(conflicts) = merge_to_text(&o, &a, &b)? else {
        panic!("expected conflicts");
    };
    assert!(conflicts.iter().any(|c| c.rule == "relabel-relabel"));
    Ok(())
}

#[test]
fn unparsable_synthesis_becomes_a_self_check_conflict() -> Result<(), Error> {
    let o = parse("[1, 2]", "json")?;
    let a = parse("[1, 2, 3]", "json")?;
    let b = parse("[1, 2]", "json")?;
    let result = merge_to_text_with(&o, &a, &b, |_, _, _, _| "[1, 2,".into())?;
    let MergeResult::Conflicts(conflicts) = result else {
        panic!("expected a self-check conflict");
    };
    assert!(conflicts.iter().all(|c| c.rule == "self-check"));
    Ok(())
}

#[test]
fn a_dropped_node_becomes_a_self_check_conflict() -> Result<(), Error> {
    let o = parse("[1, 2]", "json")?;
    let a = parse("[1, 2, 3]", "json")?;
    let b = parse("[1, 2]", "json")?;
    // Parses fine but silently drops A's insertion; the
    // universality re-check must catch it.
    let result = merge_to_text_with(&o, &a, &b, |_, _, _, _| "[1, 2]".into())?;
    let MergeResult::Conflicts(conflicts) = result else {
        panic!("expected a self-check conflict");
    };
    assert!(!conflicts.is_empty());
    assert!(conflicts.iter().all(|c| c.rule == "self-check"));
    Ok(())
}

#[test]
fn concurrent_insertions_under_a_commutative_parent_merge() -> Result<(), Error> {
    // Both branches add a use declaration at the same slot; item
    // order carries no meaning at the top level, so the runs merge
    // as a union, A's first.
    assert_merges(
        "rust",
        "use a;\nfn main() {}",
        "use a;\nuse b;\nfn main() {}",
        "use a;\nuse c;\nfn main() {}",
        "use a;\nuse b;\nuse c;\nfn main() {}",
    )?;
    // The same for JSON object entries, where each run carries its
    // separator: the commas travel with their pairs.
    assert_merges(
        "json",
        r#"{"a": 1}"#,
        r#"{"a": 1, "b": 2}"#,
        r#"{"a": 1, "c": 3}"#,
        r#"{"a": 1, "b": 2, "c": 3}"#,
    )?;
    // And for members of a Java class body.
    assert_merges(
        "java",
        "class C { void a() { } }",
        "class C { void a() { } void b() { } }",
        "class C { void a() { } void c() { } }",
        "class C { void a() { } void b() { } void c() { } }",
    )
}

#[test]
fn bound_and_interface_lists_union_too() -> Result<(), Error> {
    // Trait bounds and implements clauses are commutative: each
    // branch's addition carries its separator, and order carries
    // no meaning.
    assert_merges(
        "rust",
        "fn f<T: Clone>() {}",
        "fn f<T: Clone + Send>() {}",
        "fn f<T: Clone + Sync>() {}",
        "fn f<T: Clone + Send + Sync>() {}",
    )?;
    assert_merges(
        "java",
        "class C implements Foo { }",
        "class C implements Foo, Bar { }",
        "class C implements Foo, Baz { }",
        "class C implements Foo, Bar, Baz { }",
    )
}

#[test]
fn overlapping_commutative_insertions_dedupe_element_wise() -> Result<(), Error> {
    // Both branches add `use c;`; each also adds its own. The
    // shared element lands once, group-wise — its separator
    // dedupes with it instead of being absorbed by an unrelated
    // twin mid-run.
    assert_merges(
        "rust",
        "use a;\nfn main() {}",
        "use a;\nuse c;\nuse d;\nfn main() {}",
        "use a;\nuse c;\nuse e;\nfn main() {}",
        "use a;\nuse c;\nuse d;\nuse e;\nfn main() {}",
    )?;
    assert_merges(
        "json",
        r#"{"a": 1}"#,
        r#"{"a": 1, "k": 9, "b": 2}"#,
        r#"{"a": 1, "k": 9, "c": 3}"#,
        r#"{"a": 1, "k": 9, "b": 2, "c": 3}"#,
    )
}

#[test]
fn commutative_insertions_at_different_slots_merge() -> Result<(), Error> {
    // No shared slot, nothing identical: both land where anchored.
    // The comma each branch carries is a separator, not a
    // duplicate element — duplicate-insert must stay silent.
    assert_merges(
        "json",
        r#"{"a": 1, "z": 9}"#,
        r#"{"a": 1, "b": 2, "z": 9}"#,
        r#"{"a": 1, "z": 9, "c": 3}"#,
        r#"{"a": 1, "b": 2, "z": 9, "c": 3}"#,
    )
}

#[test]
fn an_attributed_insertion_unions_as_one_element() -> Result<(), Error> {
    // A's attribute travels with the function it governs, so the
    // union keeps them adjacent and B's insertion lands after.
    assert_merges(
        "rust",
        "mod m {\n    pub fn run() {}\n}\n",
        "mod m {\n    #[inline]\n    pub fn setup() {}\n\n    pub fn run() {}\n}\n",
        "mod m {\n    pub fn teardown() {}\n\n    pub fn run() {}\n}\n",
        "mod m {\n    #[inline]\n    pub fn setup() {}\n\n    pub fn teardown() {}\n\n    pub fn run() {}\n}\n",
    )
}

#[test]
fn a_trailing_attribute_blocks_the_union() -> Result<(), Error> {
    // A attributes the *surviving* function below the slot, so its
    // inserted run ends with the attribute; splicing B's insertion
    // in between would silently move the attribute onto B's code.
    assert_conflicts(
        "rust",
        "mod m {\n    pub fn run() {}\n}\n",
        "mod m {\n    pub fn setup() {}\n\n    #[cfg(test)]\n    pub fn run() {}\n}\n",
        "mod m {\n    pub fn teardown() {}\n\n    pub fn run() {}\n}\n",
        "insert-insert",
    )?;
    Ok(())
}

#[test]
fn commutative_insertions_with_trailing_separators_conflict() -> Result<(), Error> {
    // Prepending into an object leaves each run's comma trailing
    // (`"b": 2` then `,`); a union would need a separator neither
    // branch wrote, so this stays an insert-insert conflict.
    assert_conflicts(
        "json",
        r#"{"z": 0}"#,
        r#"{"b": 2, "z": 0}"#,
        r#"{"c": 3, "z": 0}"#,
        "insert-insert",
    )?;
    Ok(())
}

#[test]
fn ungroupable_runs_fall_back_to_per_node_dedupe() -> Result<(), Error> {
    // dedupe_run's fallback, driven directly: no rule-clean merge
    // reaches it without a slot-anchor mismatch between the rules
    // and the builder. A run ending in a separator cannot group;
    // per-node matching still dedupes B's comma against A's and
    // keeps the value A never inserted.
    let o = parse("[1]", "json")?;
    let a = parse("[1, 2]", "json")?;
    let b = parse("[1, 3]", "json")?;
    let comma_and = |tree: &Tree, digit: &str| -> Vec<NodeId> {
        let comma = tree.nodes().into_iter().find(|&n| tree.kind(n) == ",");
        let value = tree.nodes().into_iter().find(|&n| tree.label(n) == Some(digit));
        match (comma, value) {
            (Some(comma), Some(value)) => vec![comma, value],
            _ => panic!("array literal parses"),
        }
    };
    // A's run is comma-only (ungroupable); B's comma dedupes
    // against it per-node and B's value survives.
    let run_a: Vec<NodeId> = comma_and(&a, "2").first().copied().into_iter().collect();
    let run_b = comma_and(&b, "3");
    let kept = dedupe_run(&a, &b, &run_a, &run_b);
    assert_eq!(kept.len(), 1);
    assert_eq!(kept.first().map(|&n| b.label(n)), Some(Some("3")));
    Ok(())
}

#[test]
fn element_groups_split_on_named_nodes() -> Result<(), Error> {
    // A run of [comma value comma value] groups pairwise; a run
    // with a trailing separator does not group at all.
    let tree = parse("[1, 2, 3]", "json")?;
    let array = tree
        .nodes().into_iter()
        .find(|&n| tree.kind(n) == "array")
        .unwrap_or(tree.root());
    let children = tree.children(array);
    // children: [ 1 , 2 , 3 ] — drop the brackets.
    let interior = children
        .get(1..children.len().saturating_sub(1))
        .unwrap_or(&[]);
    let groups = element_groups(&tree, interior);
    assert_eq!(
        groups.as_ref().map(Vec::len),
        Some(3),
        "1 | ,2 | ,3: {groups:?}"
    );
    // Trailing comma (no closing element) refuses to group.
    let trailing = children
        .get(1..children.len().saturating_sub(2))
        .unwrap_or(&[]);
    assert_eq!(element_groups(&tree, trailing), None);
    Ok(())
}

#[test]
fn element_groups_attach_attributes_to_the_next_item() -> Result<(), Error> {
    // An attribute is a forward-binding prefix: it joins the
    // following item's group, and a run it ends refuses to group.
    let tree = parse("#[inline]\nfn f() {}\nfn g() {}", "rust")?;
    let children = tree.children(tree.root());
    // [attribute_item, function_item, function_item]
    let groups = element_groups(&tree, children);
    assert_eq!(
        groups.as_ref().map(Vec::len),
        Some(2),
        "attr+f | g: {groups:?}"
    );
    assert_eq!(
        groups.as_ref().and_then(|g| g.first()).map(Vec::len),
        Some(2)
    );
    // A run ending in the attribute (its target elsewhere) refuses
    // to group.
    let mut trailing: Vec<NodeId> = children.get(1..).unwrap_or(&[]).to_vec();
    trailing.extend(children.first());
    assert_eq!(element_groups(&tree, &trailing), None);
    Ok(())
}

#[test]
fn identical_documented_insertions_dedupe_as_one_group() -> Result<(), Error> {
    // The comment is part of the element group's hash sequence, so
    // the group dedupes whole: one comment, one function.
    assert_merges(
        "rust",
        "fn main() {}\n",
        "/// Shared.\nfn util() {}\nfn main() {}\n",
        "/// Shared.\nfn util() {}\nfn main() {}\n",
        "/// Shared.\nfn util() {}\nfn main() {}\n",
    )
}

#[test]
fn identical_comments_at_different_slots_merge() -> Result<(), Error> {
    // duplicate-insert exempts extras: repeating the same marker
    // comment in two places is not a duplicate definition, so both
    // copies land where their branch put them.
    assert_merges(
        "rust",
        "fn a() {}\nfn b() {}\n",
        "// marker\nfn a() {}\nfn b() {}\n",
        "fn a() {}\n// marker\nfn b() {}\n",
        "// marker\nfn a() {}\n// marker\nfn b() {}\n",
    )
}

#[test]
fn a_wrap_pulls_the_survivor_into_the_graft() -> Result<(), Error> {
    // A wraps the array one level deeper; B leaves it alone.
    assert_merges(
        "json",
        "{\"k\": [1, 2]}",
        "{\"k\": [[1, 2]]}",
        "{\"k\": [1, 2]}",
        "{\"k\": [[1, 2]]}",
    )
}

fn array_interior(tree: &Tree) -> Vec<NodeId> {
    let array = tree
        .nodes()
        .into_iter()
        .find(|&n| tree.kind(n) == "array")
        .unwrap_or(tree.root());
    let children = tree.children(array);
    children.get(1..children.len().saturating_sub(1)).unwrap_or(&[]).to_vec()
}

#[test]
fn dedupe_keeps_only_the_extra_copies_of_a_group() -> Result<(), Error> {
    // A inserted two equal elements, B three: one of B's survives.
    let a = parse("[9, 9]", "json")?;
    let b = parse("[9, 9, 9]", "json")?;
    let run_a = array_interior(&a);
    let run_b = array_interior(&b);
    let kept = dedupe_run(&a, &b, &run_a, &run_b);
    let kinds: Vec<&str> = kept.iter().map(|&n| b.kind(n)).collect();
    assert_eq!(kinds, vec![",", "number"]);
    assert_eq!(kept.last().and_then(|&n| b.label(n)), Some("9"));
    // The surviving group is B's last one.
    assert_eq!(kept.first().copied(), run_b.get(3).copied());
    Ok(())
}

#[test]
fn a_run_deduped_against_itself_keeps_nothing() -> Result<(), Error> {
    let t = parse("[1, 2, 3]", "json")?;
    let run = array_interior(&t);
    assert!(dedupe_run(&t, &t, &run, &run).is_empty());
    // An ungroupable run (ending in a separator) too.
    let trailing: Vec<NodeId> = run.get(..run.len() - 1).unwrap_or(&[]).to_vec();
    assert!(dedupe_run(&t, &t, &trailing, &trailing).is_empty());
    Ok(())
}

#[test]
fn a_one_sided_relabel_carries_the_branch_label() -> Result<(), Error> {
    // B renames the function; the merge's identifier comes from B.
    let o = parse("fn a() { x(); }", "rust")?;
    let a = parse("fn a() { x(); y(); }", "rust")?;
    let b = parse("fn c() { x(); }", "rust")?;
    match merge(&o, &a, &b)? {
        MergeOutcome::Merged(m) => {
            let expected = parse("fn c() { x(); y(); }", "rust")?;
            assert_eq!(m.shape(&o, &a, &b), Shape::of(&expected));
        }
        MergeOutcome::Conflicts(conflicts) => panic!("unexpected conflicts: {conflicts:?}"),
    }
    Ok(())
}

#[test]
fn overlapping_deletions_conflict() -> Result<(), Error> {
    // A rewrites f(c) to x = c, deleting the call wrapper; B deletes
    // the whole statement. The deletion regions overlap without
    // coinciding.
    assert_conflicts("rust", "fn main() { f(c); }", "fn main() { x = c; }", "fn main() { }", "delete-delete")?;
    Ok(())
}

#[test]
fn insert_under_a_deleted_node_conflicts() -> Result<(), Error> {
    // A grows fn a's body; B deletes fn a outright.
    assert_conflicts(
        "rust",
        "fn a() { x(); }\nfn b() { y(); }",
        "fn a() { x(); z(); }\nfn b() { y(); }",
        "fn b() { y(); }",
        "insert-delete",
    )?;
    Ok(())
}

#[test]
fn insert_under_a_deleted_node_conflicts_reversed() -> Result<(), Error> {
    // Same broken dependency with the branches swapped: B grows the
    // body A deletes.
    assert_conflicts(
        "rust",
        "fn a() { x(); }\nfn b() { y(); }",
        "fn b() { y(); }",
        "fn a() { x(); z(); }\nfn b() { y(); }",
        "insert-delete",
    )?;
    Ok(())
}

#[test]
fn insert_into_a_deleted_inner_class_conflicts() -> Result<(), Error> {
    assert_conflicts(
        "java",
        "class O { class I { } }",
        "class O { class I { void m() { } } }",
        "class O { }",
        "insert-delete",
    )?;
    Ok(())
}

#[test]
fn relabel_under_a_deleted_node_conflicts() -> Result<(), Error> {
    // A deletes fn b outright; B edits inside its body. Without the
    // rule, deletion wins and B's edit silently vanishes.
    let conflicts = assert_conflicts(
        "rust",
        "fn a() { x(); }\nfn b() { y(); }",
        "fn a() { x(); }",
        "fn a() { x(); }\nfn b() { z(); }",
        "relabel-delete",
    )?;
    // The conflict carries B's relabeled span.
    let b = parse("fn a() { x(); }\nfn b() { z(); }", "rust")?;
    let witnessed = conflicts.iter().any(|c| {
        c.rule == "relabel-delete"
            && c.span_b.clone().and_then(|span| b.source_slice(span)).is_some_and(|text| text == "z")
    });
    assert!(witnessed);
    Ok(())
}

#[test]
fn relabel_under_a_deleted_node_conflicts_reversed() -> Result<(), Error> {
    // Mirrored: A edits the body B deletes.
    assert_conflicts(
        "rust",
        "fn a() { x(); }\nfn b() { y(); }",
        "fn a() { x(); }\nfn b() { z(); }",
        "fn a() { x(); }",
        "relabel-delete",
    )?;
    Ok(())
}

#[test]
fn identical_nameless_insertions_at_different_slots_conflict() -> Result<(), Error> {
    // Use declarations carry no name field; without duplicate-insert
    // the union would land `use c;` twice.
    assert_conflicts(
        "rust",
        "use a;\nuse b;\n\nfn main() {}\n",
        "use c;\nuse a;\nuse b;\n\nfn main() {}\n",
        "use a;\nuse b;\nuse c;\n\nfn main() {}\n",
        "duplicate-insert",
    )?;
    Ok(())
}

#[test]
fn same_key_inserted_at_different_slots_conflicts() -> Result<(), Error> {
    // A adds "k" at the front, B adds "k" at the back, values differ.
    // No shared slot, so insert-insert is blind; without
    // name-collision the merge holds the key twice.
    let conflicts = assert_conflicts(
        "json",
        r#"{"a": 1, "b": 2}"#,
        r#"{"k": 8, "a": 1, "b": 2}"#,
        r#"{"a": 1, "b": 2, "k": 9}"#,
        "name-collision",
    )?;
    // The conflict carries both inserted pairs.
    let a = parse(r#"{"k": 8, "a": 1, "b": 2}"#, "json")?;
    let witnessed = conflicts.iter().any(|c| {
        c.rule == "name-collision"
            && c.span_a.clone().and_then(|span| a.source_slice(span)).is_some_and(|text| text.contains("\"k\""))
            && c.span_b.is_some()
    });
    assert!(witnessed);
    Ok(())
}

#[test]
fn identical_key_inserted_at_different_slots_conflicts() -> Result<(), Error> {
    // Identical values still conflict: dedupe only merges grafts
    // sharing a slot, so accepting this would keep both copies.
    assert_conflicts(
        "json",
        r#"{"a": 1, "b": 2}"#,
        r#"{"k": 8, "a": 1, "b": 2}"#,
        r#"{"a": 1, "b": 2, "k": 8}"#,
        "name-collision",
    )?;
    Ok(())
}

#[test]
fn same_class_inserted_at_different_slots_conflicts() -> Result<(), Error> {
    assert_conflicts(
        "java",
        "class P { }\nclass Q { }",
        "class N { int x; }\nclass P { }\nclass Q { }",
        "class P { }\nclass Q { }\nclass N { boolean y; }",
        "name-collision",
    )?;
    Ok(())
}

#[test]
fn same_named_commutative_insertions_at_one_slot_conflict() -> Result<(), Error> {
    // Without name-collision covering the shared slot, the union merge
    // would emit two `fn foo` definitions.
    assert_conflicts(
        "rust",
        "fn main() {}",
        "fn main() {}\nfn foo() { a(); }",
        "fn main() {}\nfn foo() { b(); }",
        "name-collision",
    )?;
    // Identical same-named insertions dedupe instead.
    assert_merges(
        "rust",
        "fn main() {}",
        "fn main() {}\nfn foo() { a(); }",
        "fn main() {}\nfn foo() { a(); }",
        "fn main() {}\nfn foo() { a(); }",
    )
}

#[test]
fn an_attributed_and_a_bare_insertion_of_one_name_conflict() -> Result<(), Error> {
    // The named nodes hash equal but the element groups differ, so
    // the builder would land both copies; name-collision must
    // compare groups, not names alone.
    assert_conflicts(
        "rust",
        "fn main() {}\n",
        "fn main() {}\n#[inline]\nfn helper() {}\n",
        "fn main() {}\nfn helper() {}\n",
        "name-collision",
    )?;
    Ok(())
}

#[test]
fn one_attributed_insertion_made_by_both_branches_merges() -> Result<(), Error> {
    // The same attribute and item inserted by both branches is one
    // edit made twice: the lead-ins agree, so name-collision stays
    // silent.
    let o = parse("fn main() {}\n", "rust")?;
    let a = parse("fn main() {}\n#[inline]\nfn helper() {}\n", "rust")?;
    let b = parse("fn main() {}\n#[inline]\nfn helper() {}\n", "rust")?;
    assert!(matches!(merge(&o, &a, &b)?, MergeOutcome::Merged(_)));
    Ok(())
}

#[test]
fn self_check_maps_each_violation_kind_to_its_span_slot() -> Result<(), Error> {
    // Extra deletion: both branches kept 2, the fake output lost it.
    let o = parse("[1, 2]", "json")?;
    let same = parse("[1, 2]", "json")?;
    let same2 = parse("[1, 2]", "json")?;
    let result = merge_to_text_with(&o, &same, &same2, |_, _, _, _| "[1]".into())?;
    let MergeResult::Conflicts(conflicts) = result else {
        panic!("expected self-check conflicts");
    };
    assert!(conflicts.iter().any(|c| c.span_o.is_some()));

    // Missed insertion from B: the fake output drops B's 3.
    let b = parse("[1, 2, 3]", "json")?;
    let o = parse("[1, 2]", "json")?;
    let a = parse("[1, 2]", "json")?;
    let result = merge_to_text_with(&o, &a, &b, |_, _, _, _| "[1, 2]".into())?;
    let MergeResult::Conflicts(conflicts) = result else {
        panic!("expected self-check conflicts");
    };
    assert!(conflicts.iter().any(|c| c.span_b.is_some()));

    // Missed relabel from A: A renamed 1 to 2, the fake output
    // kept 1.
    let o = parse("[1]", "json")?;
    let a = parse("[2]", "json")?;
    let b = parse("[1]", "json")?;
    let result = merge_to_text_with(&o, &a, &b, |_, _, _, _| "[1]".into())?;
    let MergeResult::Conflicts(conflicts) = result else {
        panic!("expected self-check conflicts");
    };
    assert!(conflicts.iter().any(|c| c.span_a.is_some()));

    // Missed relabel from B, symmetrically.
    let o = parse("[1]", "json")?;
    let a = parse("[1]", "json")?;
    let b = parse("[2]", "json")?;
    let result = merge_to_text_with(&o, &a, &b, |_, _, _, _| "[1]".into())?;
    let MergeResult::Conflicts(conflicts) = result else {
        panic!("expected self-check conflicts");
    };
    assert!(conflicts.iter().any(|c| c.span_b.is_some()));

    // Extra insertion: nobody wrote 9; the witness lives in M, so
    // no span slot is filled.
    let o = parse("[1]", "json")?;
    let a = parse("[1]", "json")?;
    let b = parse("[1]", "json")?;
    let result = merge_to_text_with(&o, &a, &b, |_, _, _, _| "[1, 9]".into())?;
    let MergeResult::Conflicts(conflicts) = result else {
        panic!("expected self-check conflicts");
    };
    assert!(
        conflicts
            .iter()
            .any(|c| c.span_o.is_none() && c.span_a.is_none() && c.span_b.is_none())
    );
    Ok(())
}

#[test]
fn the_same_run_inserted_in_both_branches_dedupes_away() -> Result<(), Error> {
    // Both branches appended ", 2" to the array, each in its own
    // tree: B's copy is the same edit made twice and nothing of it
    // survives.
    let a = parse("[1, 2]", "json")?;
    let b = parse("[1, 2]", "json")?;
    let comma_and_two = |tree: &Tree| -> Vec<NodeId> {
        let comma = tree.nodes().into_iter().find(|&n| tree.kind(n) == ",");
        let value = tree.nodes().into_iter().find(|&n| tree.label(n) == Some("2"));
        match (comma, value) {
            (Some(comma), Some(value)) => vec![comma, value],
            _ => panic!("array literal parses"),
        }
    };
    let kept = dedupe_run(&a, &b, &comma_and_two(&a), &comma_and_two(&b));
    assert!(kept.is_empty());
    Ok(())
}
