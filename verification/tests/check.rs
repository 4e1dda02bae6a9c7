use d3j::check::{check, witness, Branch, Report, Violation};
use d3j::{Error, Lang, Tree};

fn parse_json(src: &str) -> Result<Tree, Error> {
    let lang = Lang::by_name("json").ok_or(Error::UnknownLanguage { path: "json".into() })?;
    Tree::parse(src, lang)
}

fn check_json(o: &str, a: &str, b: &str, m: &str) -> Result<Report, Error> {
    let o = parse_json(o)?;
    let a = parse_json(a)?;
    let b = parse_json(b)?;
    let m = parse_json(m)?;
    Ok(check(&o, &a, &b, &m))
}

#[test]
fn extra_insertion_is_flagged() -> Result<(), Error> {
    // Nobody wrote 9; the merge invented it.
    let report = check_json("[1]", "[1]", "[1]", "[1, 9]")?;
    assert!(!report.violations.is_empty());
    assert!(
        report
            .violations
            .iter()
            .all(|v| matches!(v, Violation::ExtraInsertion { .. }))
    );
    // The 9 itself is among the witnesses.
    let m = parse_json("[1, 9]")?;
    let witnesses_nine = report.violations.iter().any(|v| match v {
        Violation::ExtraInsertion { span, .. } => m.source_slice(span.clone()) == Some("9"),
        _ => false,
    });
    assert!(witnesses_nine);
    Ok(())
}

#[test]
fn missed_insertion_is_flagged() -> Result<(), Error> {
    // A inserts 3, B deletes 1. A merge
    // that drops the insertion must be flagged...
    let report = check_json("[1, 2]", "[1, 2, 3]", "[2]", "[2]")?;
    assert!(!report.violations.is_empty());
    assert!(report.violations.iter().all(|v| matches!(
        v,
        Violation::MissedInsertion {
            branch: Branch::A,
            ..
        }
    )));
    // ...and the one that keeps it must pass.
    let report = check_json("[1, 2]", "[1, 2, 3]", "[2]", "[2, 3]")?;
    assert_eq!(report.violations, Vec::new());
    assert!(report.is_correct());
    Ok(())
}

#[test]
fn missed_insertion_is_flagged_for_branch_b() -> Result<(), Error> {
    let report = check_json("[1, 2]", "[2]", "[1, 2, 3]", "[2]")?;
    assert!(!report.violations.is_empty());
    assert!(report.violations.iter().all(|v| matches!(
        v,
        Violation::MissedInsertion {
            branch: Branch::B,
            ..
        }
    )));
    Ok(())
}

#[test]
fn extra_deletion_is_flagged() -> Result<(), Error> {
    // Both branches kept 2; the merge dropped it.
    let report = check_json("[1, 2]", "[1, 2]", "[1, 2]", "[1]")?;
    assert!(!report.violations.is_empty());
    assert!(
        report
            .violations
            .iter()
            .all(|v| matches!(v, Violation::ExtraDeletion { .. }))
    );
    Ok(())
}

#[test]
fn missed_deletion_is_flagged() -> Result<(), Error> {
    // A deleted 1; the merge kept it anyway.
    let report = check_json("[1, 2]", "[2]", "[1, 2]", "[1, 2]")?;
    assert!(!report.violations.is_empty());
    assert!(
        report
            .violations
            .iter()
            .all(|v| matches!(v, Violation::MissedDeletion { .. }))
    );
    // And symmetrically when B is the deleting branch (the node
    // reaches M through A's route).
    let report = check_json("[1, 2]", "[1, 2]", "[2]", "[1, 2]")?;
    assert!(!report.violations.is_empty());
    assert!(
        report
            .violations
            .iter()
            .all(|v| matches!(v, Violation::MissedDeletion { .. }))
    );
    Ok(())
}

#[test]
fn a_universal_merge_passes() -> Result<(), Error> {
    // Disjoint edits, including B's 2→6
    // relabel, all land.
    let report = check_json(
        "[1, 2, 3]",
        "[1, 2, 4, 5, 3]",
        "[1, 6, 3]",
        "[1, 6, 4, 5, 3]",
    )?;
    assert_eq!(report.violations, Vec::new());
    assert!(report.is_correct());
    Ok(())
}

#[test]
fn identical_inputs_pass() -> Result<(), Error> {
    let report = check_json("[1]", "[1]", "[1]", "[1]")?;
    assert!(report.is_correct());
    Ok(())
}

#[test]
fn union_merged_separators_are_not_extra_insertions() -> Result<(), Error> {
    // Each branch adds one entry, each with its comma. The two
    // matchings into M are derived independently, so both commas
    // can claim the same merged comma, orphaning its twin; the
    // fungible-separator exemption keeps that from flagging.
    let report = check_json(
        r#"{"a": 1}"#,
        r#"{"a": 1, "b": 2}"#,
        r#"{"a": 1, "c": 3}"#,
        r#"{"a": 1, "b": 2, "c": 3}"#,
    )?;
    assert_eq!(report.violations, Vec::new());
    assert!(report.is_correct());
    Ok(())
}

#[test]
fn named_nodes_under_commutative_parents_stay_checked() -> Result<(), Error> {
    // The exemption covers anonymous separators only: an invented
    // pair inside the object still flags.
    let report = check_json(
        r#"{"a": 1}"#,
        r#"{"a": 1, "b": 2}"#,
        r#"{"a": 1}"#,
        r#"{"a": 1, "b": 2, "d": 4}"#,
    )?;
    assert!(!report.violations.is_empty());
    assert!(report.violations.iter().any(|v| match v {
        Violation::ExtraInsertion { span, .. } => {
            let m = parse_json(r#"{"a": 1, "b": 2, "d": 4}"#);
            m.is_ok_and(|m| {
                m.source_slice(span.clone())
                    .is_some_and(|s| s.contains("4"))
            })
        }
        _ => false,
    }));
    Ok(())
}

#[test]
fn separators_under_non_commutative_parents_stay_checked() -> Result<(), Error> {
    // An array is not commutative, so a merge that loses an
    // element (and its comma) both branches kept flags the comma
    // too — the exemption must not reach it.
    let report = check_json("[1, 2]", "[1, 2]", "[1, 2]", "[1]")?;
    let flags_comma = report.violations.iter().any(|v| match v {
        Violation::ExtraDeletion { span, .. } => {
            let o = parse_json("[1, 2]");
            o.is_ok_and(|o| o.source_slice(span.clone()) == Some(","))
        }
        _ => false,
    });
    assert!(flags_comma, "{:?}", report.violations);
    Ok(())
}

#[test]
fn witnesses_point_into_the_tree_they_live_in() -> Result<(), Error> {
    let o = parse_json("[1, 2]")?;
    let a = parse_json("[1, 2, 3]")?;
    let b = parse_json("[2]")?;
    let m = parse_json("[2]")?;
    let report = check(&o, &a, &b, &m);
    assert!(!report.is_correct());
    for v in &report.violations {
        let (tree, span) = witness(&o, &a, &b, &m, v);
        match v {
            Violation::MissedInsertion { branch: Branch::A, node, .. } => {
                assert_eq!(tree.source_len(), a.source_len());
                assert_eq!(span, a.span(*node));
            }
            other => panic!("unexpected violation {other:?}"),
        }
    }
    let unparsable = Report { parsable: false, violations: Vec::new() };
    assert!(!unparsable.is_correct());
    Ok(())
}

#[test]
fn missed_relabel_is_flagged_in_the_relabeling_branch() -> Result<(), Error> {
    // A renamed 1 to 2; a merge that kept 1 drops the relabel, and the
    // witness is A's 2.
    let report = check_json("[1]", "[2]", "[1]", "[1]")?;
    assert_eq!(report.violations.len(), 1);
    let a = parse_json("[2]")?;
    let witnessed = match &report.violations[0] {
        Violation::MissedRelabel { branch: Branch::A, span, .. } => a.source_slice(span.clone()) == Some("2"),
        _ => false,
    };
    assert!(witnessed);
    // The merge that carries the relabel passes.
    let report = check_json("[1]", "[2]", "[1]", "[2]")?;
    assert!(report.is_correct());
    Ok(())
}
