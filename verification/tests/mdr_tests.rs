use mdr::facade::run_mdr_full;
use mdr::mdr_algorithm::{ident_drs, regions_to_map, run_mdr_algorithm};
use mdr::record_extraction::{find_orphan_records, find_records1, find_records_n,
    identify_all_data_records, identify_all_data_records_with_tree};
use mdr::similarity::Caches;
use mdr::types::{DataRecord, MdrError, RegionsMapItem, TagNode, TagTree, Threshold};

fn leaf(tag: &str, xpath: &str) -> TagNode {
    TagNode::new(tag.to_string(), xpath.to_string())
}

fn th3_10() -> Threshold {
    Threshold { num: 3, den: 10 }
}

fn single(r: &DataRecord) -> usize {
    match r {
        DataRecord::Single(n) => *n,
        DataRecord::Multi(_) => panic!("expected a Single record"),
    }
}

fn multi(r: &DataRecord) -> Vec<usize> {
    match r {
        DataRecord::Single(_) => panic!("expected a Multi record"),
        DataRecord::Multi(v) => v.clone(),
    }
}

/// A root with `n` identical `div` children, each with one `span`.
fn repeated_divs(n: usize) -> TagTree {
    let mut tree = TagTree::with_root(leaf("root", "/root"));
    for i in 0..n {
        let d = tree.add_node(0, leaf("div", &format!("/root/div[{}]", i + 1)));
        tree.add_node(d, leaf("span", &format!("/root/div[{}]/span[1]", i + 1)));
    }
    tree
}

#[test]
fn empty_tree_yields_nothing() {
    let tree = TagTree::with_root(leaf("root", "/root"));
    let out = run_mdr_full(&tree, None, None).unwrap();
    assert!(out.regions.is_empty());
    assert!(out.records.is_empty());
    assert!(out.orphans.is_empty());
}

#[test]
fn two_identical_siblings_form_one_region() {
    let tree = repeated_divs(2);
    let out = run_mdr_full(&tree, Some(2), Some(th3_10())).unwrap();
    assert_eq!(out.regions.len(), 1);
    assert_eq!(out.regions[0].parent_xpath, "/root");
    assert_eq!(out.regions[0].regions, vec![(1, 0, 2)]);
    // Each div's children are mutually similar, so its child is the record.
    assert_eq!(out.records.len(), 2);
    assert_eq!(single(&out.records[0]), 2);
    assert_eq!(single(&out.records[1]), 4);
    assert!(out.orphans.is_empty());
}

/// An alternating pattern `[a, b, a, b, a, b]` where `a` and `b` differ.
fn alternating() -> TagTree {
    let mut tree = TagTree::with_root(leaf("root", "/root"));
    for i in 0..3 {
        let a = tree.add_node(0, leaf("div", &format!("/root/div[{}]", i + 1)));
        tree.add_node(a, leaf("span", &format!("/root/div[{}]/span[1]", i + 1)));
        tree.add_node(a, leaf("span", &format!("/root/div[{}]/span[2]", i + 1)));
        let b = tree.add_node(0, leaf("p", &format!("/root/p[{}]", i + 1)));
        tree.add_node(b, leaf("img", &format!("/root/p[{}]/img[1]", i + 1)));
    }
    tree
}

#[test]
fn alternating_pattern_prefers_pairs() {
    let tree = alternating();
    let out = run_mdr_full(&tree, Some(2), Some(th3_10())).unwrap();
    assert_eq!(out.regions.len(), 1);
    assert_eq!(out.regions[0].parent_xpath, "/root");
    assert_eq!(out.regions[0].regions, vec![(2, 0, 6)]);
    // The components differ in child count, so each pair stays one record.
    assert_eq!(out.records.len(), 3);
    assert_eq!(multi(&out.records[0]), vec![1, 4]);
    assert_eq!(multi(&out.records[1]), vec![6, 9]);
    assert_eq!(multi(&out.records[2]), vec![11, 14]);
}

#[test]
fn table_rows_are_not_split_into_cells() {
    let mut tree = TagTree::with_root(leaf("root", "/root"));
    for i in 0..2 {
        let tr = tree.add_node(0, leaf("tr", &format!("/root/tr[{}]", i + 1)));
        for j in 0..3 {
            tree.add_node(
                tr,
                leaf("td", &format!("/root/tr[{}]/td[{}]", i + 1, j + 1)),
            );
        }
    }
    let out = run_mdr_full(&tree, Some(2), Some(th3_10())).unwrap();
    assert_eq!(out.regions[0].regions, vec![(1, 0, 2)]);
    // The records are the rows themselves, not their cells.
    assert_eq!(out.records.len(), 2);
    assert_eq!(single(&out.records[0]), 1);
    assert_eq!(single(&out.records[1]), 5);
}

/// Five chain-similar items and a sixth that is close to the first but far
/// from the fifth.
fn orphan_tree() -> TagTree {
    let mut tree = TagTree::with_root(leaf("root", "/root"));
    for i in 0..4 {
        let d = tree.add_node(0, leaf("div", &format!("/root/div[{}]", i + 1)));
        tree.add_node(d, leaf("i", &format!("/root/div[{}]/i[1]", i + 1)));
    }
    // The fifth item holds two `i` children: distance 7/25 to its
    // predecessor, inside the threshold.
    let d4 = tree.add_node(0, leaf("div", "/root/div[5]"));
    tree.add_node(d4, leaf("i", "/root/div[5]/i[1]"));
    tree.add_node(d4, leaf("i", "/root/div[5]/i[2]"));
    // The sixth holds one `b`: distance 9/25 to the fifth (outside the
    // threshold) but 2/18 to the first (inside it).
    let d5 = tree.add_node(0, leaf("div", "/root/div[6]"));
    tree.add_node(d5, leaf("b", "/root/div[6]/b[1]"));
    tree
}

#[test]
fn orphan_recovery_emits_the_straggler() {
    let tree = orphan_tree();
    let out = run_mdr_full(&tree, Some(1), Some(th3_10())).unwrap();
    assert_eq!(out.regions.len(), 1);
    assert_eq!(out.regions[0].regions, vec![(1, 0, 5)]);
    // The sixth div (node 12) is similar to the representative and becomes
    // an orphan; its `b` child is rejected by the length rule.
    assert_eq!(out.orphans, vec![12]);
}

/// A root with eight identical `div` children, each with two `span`s.
fn eight_divs() -> TagTree {
    let mut tree = TagTree::with_root(leaf("root", "/root"));
    for i in 0..8 {
        let d = tree.add_node(0, leaf("div", &format!("/root/div[{}]", i + 1)));
        tree.add_node(d, leaf("span", &format!("/root/div[{}]/span[1]", i + 1)));
        tree.add_node(d, leaf("span", &format!("/root/div[{}]/span[2]", i + 1)));
    }
    tree
}

#[test]
fn adjacent_regions_merge_into_columns() {
    let tree = eight_divs();
    let mut caches = Caches::new(&tree);
    let regions = vec![RegionsMapItem {
        parent_xpath: "/root".to_string(),
        regions: vec![(2, 0, 4), (2, 4, 4)],
    }];
    let records = identify_all_data_records_with_tree(&regions, &th3_10(), &tree, &mut caches)
        .unwrap();
    // The first generalized node of each region contributes its columns:
    // divs 1, 4 (region one) and 13, 16 (region two).
    assert_eq!(records.len(), 2);
    assert_eq!(multi(&records[0]), vec![2, 5, 14, 17]);
    assert_eq!(multi(&records[1]), vec![3, 6, 15, 18]);
}

#[test]
fn out_of_range_regions_surface_internal_error() {
    let tree = eight_divs();
    let mut caches = Caches::new(&tree);
    let regions = vec![RegionsMapItem {
        parent_xpath: "/root".to_string(),
        regions: vec![(2, 0, 40)],
    }];
    let r = identify_all_data_records_with_tree(&regions, &th3_10(), &tree, &mut caches);
    assert!(matches!(r, Err(MdrError::InternalError)));
    let r2 = find_orphan_records(&regions, &th3_10(), &tree, &mut caches);
    assert!(matches!(r2, Err(MdrError::InternalError)));
}

#[test]
fn invalid_parameters_are_rejected() {
    let tree = repeated_divs(2);
    assert!(matches!(
        run_mdr_full(&tree, Some(0), None),
        Err(MdrError::InvalidParameter)
    ));
    assert!(matches!(
        run_mdr_full(&tree, None, Some(Threshold { num: 7, den: 5 })),
        Err(MdrError::InvalidParameter)
    ));
}

#[test]
fn malformed_trees_are_rejected() {
    let mut dangling_root = leaf("root", "/root");
    dangling_root.add_child(7);
    let bad = TagTree { nodes: vec![dangling_root] };
    assert!(matches!(
        run_mdr_full(&bad, None, None),
        Err(MdrError::InvalidTree)
    ));
}

#[test]
fn smaller_generalized_nodes_win_ties() {
    let tree = repeated_divs(4);
    let out = run_mdr_full(&tree, Some(3), Some(th3_10())).unwrap();
    // Both lengths 1 and 2 cover all four children from index 0; the
    // smaller generalized node is kept.
    assert_eq!(out.regions[0].regions, vec![(1, 0, 4)]);
}

#[test]
fn identified_regions_are_well_formed() {
    let tree = orphan_tree();
    let mut caches = Caches::new(&tree);
    let kids: Vec<usize> = vec![1, 3, 5, 7, 9, 12];
    let regions = ident_drs(&tree, 0, &kids, 10, &th3_10(), &mut caches);
    for w in regions.windows(2) {
        assert!(w[0].1 + w[0].2 <= w[1].1);
    }
    for r in &regions {
        assert!(r.0 >= 1);
        assert!(r.2 % r.0 == 0);
        assert!(r.2 >= 2 * r.0);
        assert!(r.1 + r.2 <= kids.len());
    }
}

#[test]
fn rerunning_the_finder_gives_identical_regions() {
    let tree = alternating();
    let mut caches = Caches::new(&tree);
    let first = run_mdr_algorithm(&tree, 5, &th3_10(), &mut caches);
    let second = run_mdr_algorithm(&tree, 5, &th3_10(), &mut caches);
    assert_eq!(first.len(), second.len());
    for (a, b) in first.iter().zip(second.iter()) {
        assert_eq!(a.parent_xpath, b.parent_xpath);
        assert_eq!(a.regions, b.regions);
    }
}

#[test]
fn regions_round_trip_through_the_map() {
    let tree = alternating();
    let mut caches = Caches::new(&tree);
    let items = run_mdr_algorithm(&tree, 5, &th3_10(), &mut caches);
    let map = regions_to_map(&items);
    for item in &items {
        assert_eq!(map.get(&item.parent_xpath), Some(&item.regions));
    }
}

#[test]
fn single_node_records_split_on_similar_children() {
    let tree = repeated_divs(2);
    let mut caches = Caches::new(&tree);
    // A div's lone child is returned as the record.
    assert_eq!(find_records1(&tree, 1, &th3_10(), &mut caches), vec![2]);
}

#[test]
fn multi_node_records_split_column_wise() {
    let tree = eight_divs();
    let mut caches = Caches::new(&tree);
    // Two identical divs with two spans each: two column records.
    let records = find_records_n(&tree, &[1, 4], &th3_10(), &mut caches);
    assert_eq!(records.len(), 2);
    assert_eq!(multi(&records[0]), vec![2, 5]);
    assert_eq!(multi(&records[1]), vec![3, 6]);
}

#[test]
fn record_identification_without_the_tree_finds_nothing() {
    let regions = vec![RegionsMapItem {
        parent_xpath: "/root".to_string(),
        regions: vec![(1, 0, 2)],
    }];
    assert!(identify_all_data_records(&regions, &th3_10()).is_empty());
}

#[test]
fn uncovered_child_regions_propagate_upward() {
    // A wrapper between the root and the repeating items: the wrapper's
    // region is copied into the root's entry, since the root covers no
    // children with regions of its own.
    let mut tree = TagTree::with_root(leaf("root", "/root"));
    let w = tree.add_node(0, leaf("div", "/root/div[1]"));
    for i in 0..3 {
        let item = tree.add_node(w, leaf("p", &format!("/root/div[1]/p[{}]", i + 1)));
        tree.add_node(item, leaf("b", &format!("/root/div[1]/p[{}]/b[1]", i + 1)));
    }
    let mut caches = Caches::new(&tree);
    let items = run_mdr_algorithm(&tree, 10, &th3_10(), &mut caches);
    assert_eq!(items.len(), 2);
    assert_eq!(items[0].parent_xpath, "/root");
    assert_eq!(items[0].regions, vec![(1, 0, 3)]);
    assert_eq!(items[1].parent_xpath, "/root/div[1]");
    assert_eq!(items[1].regions, vec![(1, 0, 3)]);
    // The propagated region does not fit under the root itself, so the
    // extraction surfaces the indexing failure.
    assert!(matches!(
        run_mdr_full(&tree, None, None),
        Err(MdrError::InternalError)
    ));
}
