use mdr::similarity::{edit_distance, levenshtein_distance, longest_common_subsequence,
    normalized_edit_distance, are_siblings_similar, are_all_siblings_similar,
    get_normalized_edit_distance_sequences, Caches};
use mdr::facade::clear_distance_cache;
use mdr::types::{TagNode, TagTree, Threshold};

fn leaf(tag: &str, xpath: &str) -> TagNode {
    TagNode::new(tag.to_string(), xpath.to_string())
}

/// A root with two identical `div` children, each holding one `span`.
fn two_divs() -> TagTree {
    let mut tree = TagTree::with_root(leaf("root", "/root"));
    let d0 = tree.add_node(0, leaf("div", "/root/div[1]"));
    tree.add_node(d0, leaf("span", "/root/div[1]/span[1]"));
    let d1 = tree.add_node(0, leaf("div", "/root/div[2]"));
    tree.add_node(d1, leaf("span", "/root/div[2]/span[1]"));
    tree
}

#[test]
fn edit_distance_zero_length() {
    let d = edit_distance("", "");
    assert_eq!(d.num as f32 / d.den as f32, 0.0);
    let d = edit_distance("", "abc");
    assert_eq!(d.num as f32 / d.den as f32, 1.0);
    let d = edit_distance("abc", "");
    assert_eq!(d.num as f32 / d.den as f32, 1.0);
}

#[test]
fn edit_distance_exact_value() {
    // One substitution over length four.
    let d = edit_distance("abcd", "abed");
    assert_eq!((d.num, d.den), (1, 4));
}

#[test]
fn edit_distance_length_rejection() {
    // One side more than twice as long as the other: distance one.
    let d = edit_distance("aaaaaa", "aa");
    assert_eq!((d.num, d.den), (1, 1));
}

#[test]
fn edit_distance_within_unit_interval() {
    for (a, b) in [("", ""), ("a", "b"), ("abc", "abcdef"), ("xyz", "xy")] {
        let d = edit_distance(a, b);
        assert!(d.den >= 1);
        assert!(d.num <= d.den);
    }
}

#[test]
fn levenshtein_classic() {
    assert_eq!(levenshtein_distance("kitten", "sitting"), 3);
    assert_eq!(levenshtein_distance("", "abc"), 3);
    assert_eq!(levenshtein_distance("flaw", "lawn"), 2);
    assert_eq!(levenshtein_distance("same", "same"), 0);
}

#[test]
fn lcs_classic() {
    assert_eq!(longest_common_subsequence(b"abcde", b"ace"), 3);
    assert_eq!(longest_common_subsequence(b"", b"abc"), 0);
    assert_eq!(longest_common_subsequence(b"aaaa", b"aaaa"), 4);
    assert_eq!(longest_common_subsequence(b"abc", b"def"), 0);
}

#[test]
fn node_distance_symmetric_and_zero_on_self() {
    let tree = two_divs();
    let mut caches = Caches::new(&tree);
    let dab = normalized_edit_distance(&tree, 1, 3, &mut caches);
    let dba = normalized_edit_distance(&tree, 3, 1, &mut caches);
    assert_eq!((dab.num, dab.den), (dba.num, dba.den));
    let daa = normalized_edit_distance(&tree, 1, 1, &mut caches);
    assert_eq!(daa.num, 0);
}

#[test]
fn clearing_the_cache_keeps_distances() {
    let tree = two_divs();
    let mut caches = Caches::new(&tree);
    let before = normalized_edit_distance(&tree, 1, 3, &mut caches);
    clear_distance_cache(&mut caches);
    let after = normalized_edit_distance(&tree, 1, 3, &mut caches);
    assert_eq!((before.num, before.den), (after.num, after.den));
}

#[test]
fn identical_siblings_are_similar() {
    let tree = two_divs();
    let mut caches = Caches::new(&tree);
    let t = Threshold { num: 3, den: 10 };
    assert!(are_siblings_similar(&tree, 1, 3, &t, &mut caches));
    assert!(are_all_siblings_similar(&tree, &[1, 3], &t, &mut caches));
    // A div and its span child are dissimilar under a tight threshold.
    assert!(!are_siblings_similar(&tree, 1, 2, &t, &mut caches));
}

#[test]
fn sequence_distance_of_identical_sequences_is_zero() {
    let tree = two_divs();
    let mut caches = Caches::new(&tree);
    let d = get_normalized_edit_distance_sequences(
        &tree,
        &[1],
        &[3],
        &mut caches.flat,
    );
    assert_eq!(d.num, 0);
}

#[test]
fn threshold_validation() {
    assert!(Threshold::new(3, 10).is_ok());
    assert!(Threshold::new(10, 10).is_ok());
    assert!(Threshold::new(0, 1).is_ok());
    assert!(matches!(
        Threshold::new(5, 2),
        Err(mdr::types::MdrError::InvalidParameter)
    ));
    assert!(matches!(
        Threshold::new(1, 0),
        Err(mdr::types::MdrError::InvalidParameter)
    ));
}

#[test]
fn levenshtein_counts_characters_not_bytes() {
    // The accented character is one edit although it spans two bytes.
    assert_eq!(levenshtein_distance("caf\u{e9}", "cafe"), 1);
}
