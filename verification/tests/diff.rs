use d3j::diff::{align, anchor, diff, edits, refine, structural_eq, Edit, InvariantViolation, Matching, Shape};
use d3j::{Error, Lang, NodeId, Tree};

fn parse_json(src: &str) -> Result<Tree, Error> {
    let lang = Lang::by_name("json").ok_or(Error::UnknownLanguage { path: "json".into() })?;
    Tree::parse(src, lang)
}

fn parse_rust(src: &str) -> Result<Tree, Error> {
    let lang = Lang::by_name("rust").ok_or(Error::UnknownLanguage { path: "rust".into() })?;
    Tree::parse(src, lang)
}

/// Pairs nodes positionally; only meaningful when both trees parse the
/// same source (identical shape).
fn identity(src: &Tree, dst: &Tree) -> Matching {
    let mut m = Matching::new(src, dst);
    for (s, d) in src.nodes().into_iter().zip(dst.nodes()) {
        m.insert(s, d);
    }
    m
}

fn find_number(t: &Tree, label: &str) -> Option<NodeId> {
    t.nodes().into_iter().find(|&n| t.kind(n) == "number" && t.label(n) == Some(label))
}

fn find_kind(t: &Tree, kind: &str) -> Vec<NodeId> {
    t.nodes().into_iter().filter(|&n| t.kind(n) == kind).collect()
}

#[test]
fn accepts_an_order_preserving_map() -> Result<(), Error> {
    let o = parse_json("[1, 2, 3]")?;
    let a = parse_json("[1, 2, 3]")?;
    let m = identity(&o, &a);
    assert!(m.validate(&o, &a).is_ok());
    Ok(())
}

#[test]
fn accepts_a_partial_map() -> Result<(), Error> {
    let o = parse_json("[1, 2, 3]")?;
    let a = parse_json("[1, 9, 3]")?;
    let mut m = Matching::new(&o, &a);
    for label in ["1", "3"] {
        if let (Some(s), Some(d)) = (find_number(&o, label), find_number(&a, label)) {
            m.insert(s, d);
        }
    }
    assert_eq!(m.pairs().len(), 2);
    assert!(m.validate(&o, &a).is_ok());
    Ok(())
}

#[test]
fn rejects_a_crossing_map() -> Result<(), Error> {
    // O and A both hold [1, 2]; matching 1↔1 and 2↔2 across O=[1,2],
    // A=[2,1] crosses sibling order.
    let o = parse_json("[1, 2]")?;
    let a = parse_json("[2, 1]")?;
    let mut m = Matching::new(&o, &a);
    for label in ["1", "2"] {
        if let (Some(s), Some(d)) = (find_number(&o, label), find_number(&a, label)) {
            m.insert(s, d);
        }
    }
    assert!(matches!(m.validate(&o, &a), Err(InvariantViolation::Order { .. })));
    Ok(())
}

#[test]
fn rejects_a_kind_mismatch() -> Result<(), Error> {
    let o = parse_json("[1]")?;
    let a = parse_json("[[1]]")?;
    let mut m = Matching::new(&o, &a);
    let number = find_number(&o, "1");
    let inner_array = find_kind(&a, "array").pop();
    if let (Some(s), Some(d)) = (number, inner_array) {
        m.insert(s, d);
    }
    assert!(matches!(m.validate(&o, &a), Err(InvariantViolation::Kind { .. })));
    Ok(())
}

#[test]
fn rejects_inverted_ancestry() -> Result<(), Error> {
    // Match O's outer array to A's inner and vice versa.
    let o = parse_json("[[1]]")?;
    let a = parse_json("[[1]]")?;
    let o_arrays = find_kind(&o, "array");
    let a_arrays = find_kind(&a, "array");
    let mut m = Matching::new(&o, &a);
    if let (Some(&o_outer), Some(&o_inner), Some(&a_outer), Some(&a_inner)) =
        (o_arrays.first(), o_arrays.last(), a_arrays.first(), a_arrays.last())
    {
        m.insert(o_outer, a_inner);
        m.insert(o_inner, a_outer);
    }
    assert!(matches!(m.validate(&o, &a), Err(InvariantViolation::Ancestry { .. })));
    Ok(())
}

#[test]
fn insert_relinks_stale_pairs() -> Result<(), Error> {
    // Bijectivity is structural: re-inserting either endpoint unlinks
    // the pairing it replaces.
    let o = parse_json("[1, 2]")?;
    let a = parse_json("[1, 2]")?;
    let (Some(o1), Some(o2)) = (find_number(&o, "1"), find_number(&o, "2")) else {
        unreachable!("[1, 2] holds numbers 1 and 2");
    };
    let (Some(a1), Some(a2)) = (find_number(&a, "1"), find_number(&a, "2")) else {
        unreachable!("[1, 2] holds numbers 1 and 2");
    };

    let mut m = Matching::new(&o, &a);
    m.insert(o1, a1);
    m.insert(o1, a2); // replaces o1's image
    assert_eq!(m.image(o1), Some(a2));
    assert_eq!(m.preimage(a1), None);

    m.insert(o2, a2); // steals a2 from o1
    assert_eq!(m.image(o2), Some(a2));
    assert_eq!(m.image(o1), None);
    assert_eq!(m.preimage(a2), Some(o2));
    Ok(())
}

#[test]
fn unique_subtrees_anchor() -> Result<(), Error> {
    let o = parse_rust("fn a() {}\nfn b() {}")?;
    let a = parse_rust("fn a() {}\nfn c() {}\nfn b() {}")?;
    let m = anchor(&o, &a);
    assert!(m.validate(&o, &a).is_ok());
    // Both fn a and fn b anchor wholesale: the function_items match and
    // so do the identifiers inside them.
    let fns = m.pairs().into_iter().filter(|&(s, _)| o.kind(s) == "function_item").count();
    assert_eq!(fns, 2);
    let ids: Vec<_> = m
        .pairs()
        .into_iter()
        .filter(|&(s, _)| o.kind(s) == "identifier")
        .map(|(s, d)| (o.label(s), a.label(d)))
        .collect();
    assert!(ids.contains(&(Some("a"), Some("a"))));
    assert!(ids.contains(&(Some("b"), Some("b"))));
    Ok(())
}

#[test]
fn crossing_anchors_are_demoted() -> Result<(), Error> {
    // O = [a, b], A = [b, a]: whichever anchors second would cross the
    // first, so it must be dropped, not create a crossing map.
    let o = parse_rust("fn a() {}\nfn b() {}")?;
    let a = parse_rust("fn b() {}\nfn a() {}")?;
    let m = anchor(&o, &a);
    assert!(m.validate(&o, &a).is_ok());
    let fns = m.pairs().into_iter().filter(|&(s, _)| o.kind(s) == "function_item").count();
    assert_eq!(fns, 1);
    Ok(())
}

#[test]
fn identical_trees_anchor_wholesale_at_the_root() -> Result<(), Error> {
    let o = parse_rust("fn a() { x(); }")?;
    let a = parse_rust("fn a() { x(); }")?;
    let m = anchor(&o, &a);
    assert_eq!(m.pairs().len(), o.nodes().len());
    assert!(m.validate(&o, &a).is_ok());
    Ok(())
}

#[test]
fn duplicated_subtrees_do_not_anchor() -> Result<(), Error> {
    // The number 1 appears twice in O, so its hash is not unique there
    // and it must not anchor — even though it is unique in A.
    let o = parse_json("[1, 1]")?;
    let a = parse_json("[1]")?;
    let m = anchor(&o, &a);
    assert!(m.validate(&o, &a).is_ok());
    assert!(m.pairs().into_iter().all(|(s, _)| o.kind(s) != "number"));
    Ok(())
}

fn phase12(o: &Tree, a: &Tree) -> Matching {
    let mut m = anchor(o, a);
    align(o, a, &mut m);
    m
}

#[test]
fn alignment_matches_structure_around_insertions() -> Result<(), Error> {
    // Insertions between kept elements: [1,2,3] → [1,2,4,5,3].
    let o = parse_json("[1, 2, 3]")?;
    let a = parse_json("[1, 2, 4, 5, 3]")?;
    let m = phase12(&o, &a);
    assert!(m.validate(&o, &a).is_ok());
    assert_eq!(m.image(o.root()), Some(a.root()));
    let arrays_matched = find_kind(&o, "array").first().and_then(|&arr| m.image(arr)).map(|img| a.kind(img));
    assert_eq!(arrays_matched, Some("array"));
    for label in ["1", "2", "3"] {
        let image_label = find_number(&o, label).and_then(|s| m.image(s)).and_then(|d| a.label(d));
        assert_eq!(image_label, Some(label));
    }
    for label in ["4", "5"] {
        let preimage = find_number(&a, label).and_then(|d| m.preimage(d));
        assert_eq!(preimage, None);
    }
    Ok(())
}

#[test]
fn alignment_leaves_replaced_leaves_unmatched() -> Result<(), Error> {
    // A replaced element: [1,2,3] → [1,6,3]. The 2/6 pair differs in
    // label, so phase 2 leaves both unmatched.
    let o = parse_json("[1, 2, 3]")?;
    let a = parse_json("[1, 6, 3]")?;
    let m = phase12(&o, &a);
    assert!(m.validate(&o, &a).is_ok());
    assert_eq!(m.image(o.root()), Some(a.root()));
    for label in ["1", "3"] {
        let image_label = find_number(&o, label).and_then(|s| m.image(s)).and_then(|d| a.label(d));
        assert_eq!(image_label, Some(label));
    }
    assert_eq!(find_number(&o, "2").and_then(|s| m.image(s)), None);
    assert_eq!(find_number(&a, "6").and_then(|d| m.preimage(d)), None);
    Ok(())
}

#[test]
fn alignment_exposes_renames_as_relabel_candidates() -> Result<(), Error> {
    // Same-kind alignment matches the function_item wrapper, so the
    // differing identifiers become phase 3's relabel candidates.
    let o = parse_rust("fn a() {}")?;
    let a = parse_rust("fn b() {}")?;
    let m = phase12(&o, &a);
    assert!(m.validate(&o, &a).is_ok());
    let item_matched = find_kind(&o, "function_item").first().and_then(|&f| m.image(f)).map(|img| a.kind(img));
    assert_eq!(item_matched, Some("function_item"));
    let o_ident = o.nodes().into_iter().find(|&n| o.label(n) == Some("a"));
    let a_ident = a.nodes().into_iter().find(|&n| a.label(n) == Some("b"));
    assert_eq!(o_ident.and_then(|n| m.image(n)), None);
    assert_eq!(a_ident.and_then(|n| m.preimage(n)), None);
    Ok(())
}

fn phase123(o: &Tree, a: &Tree) -> Matching {
    let mut m = anchor(o, a);
    align(o, a, &mut m);
    refine(o, a, &mut m);
    m
}

#[test]
fn zhang_shasha_matches_a_nested_restructure() -> Result<(), Error> {
    // A subtree moved one level deeper with an edit inside it. Only
    // phase 3 can still match the 1 and 2 leaves into the deeper array.
    let o = parse_json("[[1, 2], [1, 2]]")?;
    let a = parse_json("[[[1, 2, 9]], [1, 2]]")?;
    let m = phase123(&o, &a);
    assert!(m.validate(&o, &a).is_ok());
    // Every O number has an image with the same label...
    for s in find_kind(&o, "number") {
        let image_label = m.image(s).and_then(|d| a.label(d));
        assert_eq!(image_label, o.label(s));
    }
    // ...while the freshly inserted 9 has no preimage.
    assert_eq!(find_number(&a, "9").and_then(|d| m.preimage(d)), None);
    Ok(())
}

#[test]
fn zhang_shasha_relabels_a_renamed_function() -> Result<(), Error> {
    // Phase 2 leaves the differing identifiers unmatched; phase 3
    // matches them as a relabel (cost 1 beats delete+insert at 2).
    let o = parse_rust("fn a() {}")?;
    let a = parse_rust("fn b() {}")?;
    let m = phase123(&o, &a);
    assert!(m.validate(&o, &a).is_ok());
    let o_ident = o.nodes().into_iter().find(|&n| o.label(n) == Some("a"));
    let image_label = o_ident.and_then(|n| m.image(n)).and_then(|d| a.label(d));
    assert_eq!(image_label, Some("b"));
    Ok(())
}

#[test]
fn over_budget_residues_stay_unmatched() -> Result<(), Error> {
    // The nested-restructure scenario scaled past the ZS budget: the
    // oversized gap is left as delete+insert. Only the intact second
    // copy's numbers match.
    let ns = (1000..1200).map(|i| i.to_string()).collect::<Vec<_>>().join(", ");
    let o = parse_json(&format!("[[{ns}], [{ns}]]"))?;
    let a = parse_json(&format!("[[[{ns}, 9]], [{ns}]]"))?;
    let m = phase123(&o, &a);
    assert!(m.validate(&o, &a).is_ok());
    let matched_numbers = m.pairs().into_iter().filter(|&(s, _)| o.kind(s) == "number").count();
    assert_eq!(matched_numbers, 200);
    Ok(())
}

#[test]
fn structural_eq_distinguishes_kind_label_and_shape() -> Result<(), Error> {
    let one = parse_json("[1]")?;
    let same = parse_json("[1]")?;
    let two = parse_json("[2]")?;
    let longer = parse_json("[1, 2]")?;
    let object = parse_json("{}")?;
    assert!(structural_eq(&one, one.root(), &same, same.root()));
    assert!(!structural_eq(&one, one.root(), &two, two.root()));
    assert!(!structural_eq(&one, one.root(), &longer, longer.root()));
    assert!(!structural_eq(&one, one.root(), &object, object.root()));
    Ok(())
}

#[test]
fn image_and_preimage_report_unmatched_nodes() -> Result<(), Error> {
    let o = parse_json("[1]")?;
    let a = parse_json("[1]")?;
    let m = Matching::new(&o, &a);
    assert_eq!(m.image(o.root()), None);
    assert_eq!(m.preimage(a.root()), None);
    assert_eq!(m.pairs().len(), 0);
    Ok(())
}

#[test]
fn identical_trees_have_an_empty_edit_script() -> Result<(), Error> {
    let o = parse_rust("fn a() { x(); }")?;
    let a = parse_rust("fn a() { x(); }")?;
    let m = diff(&o, &a);
    assert!(edits(&o, &a, &m).is_empty());
    assert_eq!(m.pairs().len(), o.node_count());
    Ok(())
}

#[test]
fn a_rename_is_exactly_one_relabel() -> Result<(), Error> {
    let o = parse_rust("fn a() {}")?;
    let a = parse_rust("fn b() {}")?;
    let m = diff(&o, &a);
    let script = edits(&o, &a, &m);
    assert_eq!(script.len(), 1);
    match script.first() {
        Some(&Edit::Relabel(x, y)) => {
            assert_eq!(o.label(x), Some("a"));
            assert_eq!(a.label(y), Some("b"));
        }
        other => panic!("expected one relabel, got {other:?}"),
    }
    Ok(())
}

#[test]
fn insertions_and_deletions_come_from_unmatched_nodes() -> Result<(), Error> {
    let o = parse_json("[1, 2]")?;
    let a = parse_json("[2, 3]")?;
    let m = diff(&o, &a);
    let script = edits(&o, &a, &m);
    // Deletions and relabels (src order) come before insertions.
    let first_insert = script.iter().position(|e| matches!(e, Edit::Insert(_)));
    if let Some(i) = first_insert {
        assert!(script[i..].iter().all(|e| matches!(e, Edit::Insert(_))));
    }
    for e in &script {
        match *e {
            Edit::Delete(x) => assert_eq!(m.image(x), None),
            Edit::Insert(y) => assert_eq!(m.preimage(y), None),
            Edit::Relabel(x, y) => {
                assert_eq!(m.image(x), Some(y));
                assert_ne!(o.label(x), a.label(y));
            }
        }
    }
    assert!(!script.is_empty());
    // Unique values anchor; what is left over is inserted or deleted.
    let grown = parse_json("[1, 2, 3]")?;
    let shrunk = parse_json("[1, 3]")?;
    let to_grown = diff(&o, &grown);
    let inserted = edits(&o, &grown, &to_grown);
    assert!(inserted.contains(&Edit::Insert(find_number(&grown, "3").expect("3 is in A"))));
    assert!(inserted.iter().all(|e| matches!(e, Edit::Insert(_))));
    let to_shrunk = diff(&grown, &shrunk);
    let deleted = edits(&grown, &shrunk, &to_shrunk);
    assert!(deleted.contains(&Edit::Delete(find_number(&grown, "2").expect("2 is in O"))));
    assert!(deleted.iter().all(|e| matches!(e, Edit::Delete(_))));
    Ok(())
}

#[test]
fn diff_pairs_the_roots_and_keeps_kinds() -> Result<(), Error> {
    let o = parse_json(r#"{"k": [1, 2], "j": true}"#)?;
    let a = parse_json(r#"{"j": false, "k": [[1, 2]]}"#)?;
    let m = diff(&o, &a);
    assert_eq!(m.image(o.root()), Some(a.root()));
    for (s, d) in m.pairs() {
        assert_eq!(o.kind_id(s), a.kind_id(d));
        assert_eq!(m.preimage(d), Some(s));
    }
    Ok(())
}

#[test]
fn shapes_compare_structure_not_spans() -> Result<(), Error> {
    let spaced = parse_json("[ 1 ,  2 ]")?;
    let tight = parse_json("[1,2]")?;
    let other = parse_json("[1,3]")?;
    assert_eq!(Shape::of(&spaced), Shape::of(&tight));
    assert_ne!(Shape::of(&tight), Shape::of(&other));
    Ok(())
}

#[test]
fn anchoring_yields_a_valid_matching_when_a_block_moves() -> Result<(), Error> {
    // The anchored pair moved under a later sibling object: the anchor
    // phase's blocks alone keep kinds, ancestry, and sibling order.
    let o = parse_json(r#"[{"a": [1, 2]}]"#)?;
    let a = parse_json(r#"[{"b": 0}, {"a": [1, 2], "c": 1}]"#)?;
    let m = anchor(&o, &a);
    assert!(m.validate(&o, &a).is_ok());
    assert!(!m.pairs().is_empty());
    Ok(())
}

#[test]
fn refinement_keeps_every_pair_it_is_given() -> Result<(), Error> {
    let o = parse_json("[[1, 2], [1, 2]]")?;
    let a = parse_json("[[[1, 2, 9]], [1, 2]]")?;
    let before = phase12(&o, &a).pairs();
    let mut after = phase12(&o, &a);
    refine(&o, &a, &mut after);
    for &(s, d) in &before {
        assert_eq!(after.image(s), Some(d));
    }
    assert!(after.pairs().len() > before.len());
    Ok(())
}
