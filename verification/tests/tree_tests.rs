use mdr::similarity::Caches;
use mdr::tree_utils::{count_nodes, flatten_subtree, flatten_subtree_with_xpath, get_children,
    get_depth, get_node_by_xpath};
use mdr::types::{TagNode, TagTree};

fn leaf(tag: &str, xpath: &str) -> TagNode {
    TagNode::new(tag.to_string(), xpath.to_string())
}

fn text_node(xpath: &str, raw: &str) -> TagNode {
    let mut n = TagNode::new("text".to_string(), xpath.to_string());
    n.set_raw_text(raw.to_string());
    n
}

#[test]
fn flatten_emits_tags_in_order() {
    let mut tree = TagTree::with_root(leaf("div", "/div"));
    tree.add_node(0, leaf("span", "/div/span[1]"));
    tree.add_node(0, leaf("span", "/div/span[2]"));
    let mut caches = Caches::new(&tree);
    let s = flatten_subtree(&tree, 0, &mut caches.flat);
    assert_eq!(s, "<div><span></span><span></span></div>");
    // A second call returns the same bytes.
    let again = flatten_subtree(&tree, 0, &mut caches.flat);
    assert_eq!(s, again);
}

#[test]
fn flatten_elides_text_with_content() {
    let mut tree = TagTree::with_root(leaf("div", "/div"));
    tree.add_node(0, text_node("/div/text()[1]", "hello"));
    let mut caches = Caches::new(&tree);
    let s = flatten_subtree(&tree, 0, &mut caches.flat);
    assert_eq!(s, "<div></div>");
}

#[test]
fn flatten_keeps_blank_text_without_closing_tag() {
    let mut tree = TagTree::with_root(leaf("div", "/div"));
    tree.add_node(0, text_node("/div/text()[1]", "   "));
    let mut caches = Caches::new(&tree);
    let s = flatten_subtree(&tree, 0, &mut caches.flat);
    assert_eq!(s, "<div><text></div>");
}

#[test]
fn flatten_with_xpath_keeps_text_and_attributes() {
    let mut tree = TagTree::with_root(leaf("div", "/div"));
    let t = tree.add_node(0, leaf("b", "/div/b[1]"));
    tree.nodes[t].set_raw_text("x".to_string());
    let s = flatten_subtree_with_xpath(&tree, 0);
    assert_eq!(s, "<div xpath=\"/div\"><b xpath=\"/div/b[1]\">x</b></div>");
}

#[test]
fn xpath_lookup_finds_first_match() {
    let mut tree = TagTree::with_root(leaf("root", "/root"));
    let d0 = tree.add_node(0, leaf("div", "/root/div[1]"));
    tree.add_node(d0, leaf("span", "/root/div[1]/span[1]"));
    let d1 = tree.add_node(0, leaf("div", "/root/div[2]"));
    assert_eq!(get_node_by_xpath(&tree, 0, "/root/div[2]"), Some(d1));
    assert_eq!(get_node_by_xpath(&tree, 0, "/root/div[1]/span[1]"), Some(2));
    assert_eq!(get_node_by_xpath(&tree, 0, "/nowhere"), None);
}

#[test]
fn children_count_and_depth() {
    let mut tree = TagTree::with_root(leaf("root", "/root"));
    let d0 = tree.add_node(0, leaf("div", "/root/div[1]"));
    tree.add_node(d0, leaf("span", "/root/div[1]/span[1]"));
    let d1 = tree.add_node(0, leaf("div", "/root/div[2]"));
    tree.add_node(d1, leaf("span", "/root/div[2]/span[1]"));
    assert_eq!(get_children(&tree, 0), vec![d0, d1]);
    assert_eq!(count_nodes(&tree, 0), 5);
    assert_eq!(get_depth(&tree, 0), 3);
    assert_eq!(get_depth(&tree, d0), 2);
}

#[test]
fn well_formedness_check_rejects_bad_arenas() {
    let good = {
        let mut tree = TagTree::with_root(leaf("root", "/root"));
        tree.add_node(0, leaf("div", "/root/div[1]"));
        tree
    };
    assert!(good.is_well_formed());
    // A child index pointing outside the arena.
    let mut dangling_root = leaf("root", "/root");
    dangling_root.add_child(5);
    let dangling = TagTree { nodes: vec![dangling_root] };
    assert!(!dangling.is_well_formed());
    // Two parents sharing one child.
    let mut r = leaf("root", "/root");
    r.add_child(1);
    r.add_child(2);
    let mut a = leaf("div", "/root/div[1]");
    a.add_child(2);
    let shared = TagTree {
        nodes: vec![r, a, leaf("span", "/root/div[1]/span[1]")],
    };
    assert!(!shared.is_well_formed());
}

#[test]
fn flatten_sequence_concatenates() {
    let mut tree = TagTree::with_root(leaf("root", "/root"));
    tree.add_node(0, leaf("a", "/root/a[1]"));
    tree.add_node(0, leaf("b", "/root/b[1]"));
    let mut caches = Caches::new(&tree);
    let s = mdr::similarity::flatten_node_sequence(&tree, &[1, 2], &mut caches.flat);
    assert_eq!(s, "<a></a><b></b>");
}
