use d3j::zs::{mapping, mapping_with_cost, ZsTree};

fn t<'a>(label: &'a str, children: Vec<ZsTree<&'a str>>) -> ZsTree<&'a str> {
    ZsTree { value: label, children }
}

fn leaf(label: &str) -> ZsTree<&str> {
    t(label, Vec::new())
}

/// Every label is the same "kind": equal is free, different costs 1.
fn any_relabel(a: &str, b: &str) -> Option<u32> {
    if a == b { Some(0) } else { Some(1) }
}

/// Labels are "kinds": different labels never match.
fn never_relabel(a: &str, b: &str) -> Option<u32> {
    if a == b { Some(0) } else { None }
}

#[test]
fn identical_trees_map_completely() {
    let src = t("f", vec![leaf("a"), leaf("b")]);
    let dst = t("f", vec![leaf("a"), leaf("b")]);
    let pairs = mapping(&src, &dst, any_relabel);
    assert_eq!(pairs.len(), 3);
    for pair in [("f", "f"), ("a", "a"), ("b", "b")] {
        assert!(pairs.contains(&pair));
    }
}

#[test]
fn relabels_map_in_place() {
    let src = t("f", vec![leaf("a"), leaf("b")]);
    let dst = t("f", vec![leaf("a"), leaf("c")]);
    let pairs = mapping(&src, &dst, any_relabel);
    assert!(pairs.contains(&("b", "c")));
    assert_eq!(pairs.len(), 3);
}

#[test]
fn nested_restructure_maps_leaves() {
    // f(a, b) → f(g(a, b)): inserting g is cheaper than losing the
    // leaves, so a and b must survive one level deeper.
    let src = t("f", vec![leaf("a"), leaf("b")]);
    let dst = t("f", vec![t("g", vec![leaf("a"), leaf("b")])]);
    let pairs = mapping(&src, &dst, any_relabel);
    for pair in [("f", "f"), ("a", "a"), ("b", "b")] {
        assert!(pairs.contains(&pair));
    }
    assert!(pairs.iter().all(|&(_, d)| d != "g"));
}

#[test]
fn incompatible_nodes_never_map() {
    // With relabeling forbidden, x → y is a delete plus an insert.
    let pairs = mapping(&leaf("x"), &leaf("y"), never_relabel);
    assert!(pairs.is_empty());
}

#[test]
fn deletions_and_insertions_surround_a_match() {
    let src = t("f", vec![leaf("a"), leaf("b"), leaf("c")]);
    let dst = t("f", vec![leaf("b")]);
    let pairs = mapping(&src, &dst, never_relabel);
    assert_eq!(pairs.len(), 2);
    for pair in [("f", "f"), ("b", "b")] {
        assert!(pairs.contains(&pair));
    }
}

fn copy_tree(tree: &ZsTree<u8>) -> ZsTree<u8> {
    ZsTree { value: tree.value, children: tree.children.iter().map(copy_tree).collect() }
}

/// All trees with exactly `nodes` nodes over the given labels.
fn trees_with(nodes: usize, labels: &[u8]) -> Vec<ZsTree<u8>> {
    if nodes == 0 {
        return Vec::new();
    }
    let mut out = Vec::new();
    for &label in labels {
        for children in forests(nodes.saturating_sub(1), labels) {
            out.push(ZsTree { value: label, children });
        }
    }
    out
}

/// All ordered forests totalling `total` nodes.
fn forests(total: usize, labels: &[u8]) -> Vec<Vec<ZsTree<u8>>> {
    if total == 0 {
        return vec![Vec::new()];
    }
    let mut out = Vec::new();
    for first in 1..=total {
        for head in trees_with(first, labels) {
            for tail in forests(total.saturating_sub(first), labels) {
                let mut forest = vec![copy_tree(&head)];
                forest.extend(tail);
                out.push(forest);
            }
        }
    }
    out
}

/// Clones a label tree into an identity-carrying tree with pre-order
/// ids, returning the node count.
fn retag(tree: &ZsTree<u8>, next: &mut usize) -> ZsTree<(usize, u8)> {
    let id = *next;
    *next = next.saturating_add(1);
    ZsTree { value: (id, tree.value), children: tree.children.iter().map(|c| retag(c, next)).collect() }
}

#[test]
fn mapping_cost_matches_the_dp_on_all_small_trees() {
    // Exhaustive internal-consistency oracle: the backtracked mapping's
    // implied cost (relabels + unmatched nodes on both sides) must equal
    // the DP's optimal distance, and the mapping must be a bijection.
    let labels = [0u8, 1u8];
    let mut all: Vec<(ZsTree<(usize, u8)>, usize)> = Vec::new();
    for nodes in 1..=3usize {
        for tree in trees_with(nodes, &labels) {
            let mut next = 0usize;
            let tagged = retag(&tree, &mut next);
            all.push((tagged, next));
        }
    }
    for (src, src_count) in &all {
        for (dst, dst_count) in &all {
            let (pairs, distance) =
                mapping_with_cost(src, dst, |a: (usize, u8), b: (usize, u8)| if a.1 == b.1 { Some(0) } else { Some(1) });
            let relabels = pairs.iter().filter(|(a, b)| a.1 != b.1).count();
            let matched = pairs.len();
            let implied = relabels
                .saturating_add(src_count.saturating_sub(matched))
                .saturating_add(dst_count.saturating_sub(matched));
            assert_eq!(u32::try_from(implied).ok(), Some(distance), "implied cost diverged for {matched} pairs");
            let mut src_ids: Vec<usize> = pairs.iter().map(|(a, _)| a.0).collect();
            let mut dst_ids: Vec<usize> = pairs.iter().map(|(_, b)| b.0).collect();
            src_ids.sort_unstable();
            src_ids.dedup();
            dst_ids.sort_unstable();
            dst_ids.dedup();
            assert_eq!(src_ids.len(), matched);
            assert_eq!(dst_ids.len(), matched);
        }
    }
}

#[test]
fn mapping_preserves_sibling_order() {
    // f(a, b) vs f(b, a): only one leaf can survive; crossing both
    // would break order, which a valid edit mapping never does.
    let src = t("f", vec![leaf("a"), leaf("b")]);
    let dst = t("f", vec![leaf("b"), leaf("a")]);
    let pairs = mapping(&src, &dst, never_relabel);
    let leaves = pairs.iter().filter(|&&(s, _)| s != "f").count();
    assert_eq!(leaves, 1);
}

#[test]
fn distance_counts_edits_exactly() {
    // f(a, b) → f(a, c): one relabel.
    let (_, d) = mapping_with_cost(&t("f", vec![leaf("a"), leaf("b")]), &t("f", vec![leaf("a"), leaf("c")]), any_relabel);
    assert_eq!(d, 1);
    // x → y with relabels forbidden: one deletion and one insertion.
    let (pairs, d) = mapping_with_cost(&leaf("x"), &leaf("y"), never_relabel);
    assert!(pairs.is_empty());
    assert_eq!(d, 2);
    // Identical trees: nothing to do.
    let (_, d) = mapping_with_cost(&t("f", vec![leaf("a")]), &t("f", vec![leaf("a")]), any_relabel);
    assert_eq!(d, 0);
}

/// The proper ancestors of each label in a tree whose labels are unique.
fn ancestors<'a>(tree: &ZsTree<&'a str>, above: &mut Vec<&'a str>, out: &mut Vec<(&'a str, Vec<&'a str>)>) {
    out.push((tree.value, above.clone()));
    above.push(tree.value);
    for child in &tree.children {
        ancestors(child, above, out);
    }
    above.pop();
}

fn is_ancestor(tree: &ZsTree<&str>, a: &str, b: &str) -> bool {
    let mut table = Vec::new();
    ancestors(tree, &mut Vec::new(), &mut table);
    table.iter().any(|(label, above)| *label == b && above.contains(&a))
}

#[test]
fn mapped_pairs_agree_on_ancestry() {
    // p(q(r, s), t) → p(r, q(s, t)): whatever the mapping keeps, one
    // kept node is above another on one side exactly when it is on the
    // other.
    let src = t("p", vec![t("q", vec![leaf("r"), leaf("s")]), leaf("t")]);
    let dst = t("p", vec![leaf("r"), t("q", vec![leaf("s"), leaf("t")])]);
    let pairs = mapping(&src, &dst, never_relabel);
    assert!(pairs.contains(&("p", "p")));
    for &(s1, d1) in &pairs {
        for &(s2, d2) in &pairs {
            assert_eq!(is_ancestor(&src, s1, s2), is_ancestor(&dst, d1, d2));
        }
    }
}
