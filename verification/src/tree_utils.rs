//! Subtree serialization (the structural flattening that similarity is
//! measured on), XPath lookup, and small tree utilities.

use vstd::prelude::*;
use crate::text::{is_blank, str_eq, str_is_blank};
use crate::types::{NodeId, TagNode, TagTree, wf_arena};

verus! {

/// Whether serialization elides node `n` entirely: a text pseudo-node whose
/// raw text trims to something non-empty.  Text content is dropped so that
/// structural similarity dominates.
pub open spec fn elided(n: TagNode) -> bool {
    n.tag_name@ == "text"@ && match n.raw_text {
        Some(s) => !is_blank(s@),
        None => false,
    }
}

/// The canonical serialization of the subtree rooted at `i`: `<tag>`, the
/// children in order, then `</tag>` — except that text nodes take no closing
/// tag, and elided nodes serialize to nothing.
pub open spec fn flatten_at(t: Seq<TagNode>, i: int) -> Seq<char>
    decreases t.len() - i, t[i].children@.len() + 1,
{
    if !(0 <= i < t.len() && t[i].wf_in(t, i)) {
        Seq::empty()
    } else if elided(t[i]) {
        Seq::empty()
    } else {
        "<"@ + t[i].tag_name@ + ">"@ + flatten_kids(t, i, 0) + (if t[i].tag_name@ == "text"@ {
            Seq::<char>::empty()
        } else {
            "</"@ + t[i].tag_name@ + ">"@
        })
    }
}

/// The concatenated serializations of children `j..` of node `i`.
pub open spec fn flatten_kids(t: Seq<TagNode>, i: int, j: int) -> Seq<char>
    decreases t.len() - i, t[i].children@.len() - j,
{
    if 0 <= i < t.len() && t[i].wf_in(t, i) && 0 <= j < t[i].children@.len() {
        flatten_at(t, t[i].children@[j] as int) + flatten_kids(t, i, j + 1)
    } else {
        Seq::empty()
    }
}

/// Memo of per-node serializations.  Entry `i`, when filled, holds exactly
/// the serialization of node `i`, so hits and misses agree.
pub struct FlattenCache {
    pub entries: Vec<Option<String>>,
}

impl FlattenCache {
    pub open spec fn valid(self, t: Seq<TagNode>) -> bool {
        &&& self.entries@.len() == t.len()
        &&& forall|i: int|
            0 <= i < t.len() ==> match #[trigger] self.entries@[i] {
                Some(s) => s@ == flatten_at(t, i),
                None => true,
            }
    }

    /// An empty cache for `tree`.
    pub fn new(tree: &TagTree) -> (r: FlattenCache)
        ensures
            r.valid(tree.nodes@),
    {
        let n = tree.nodes.len();
        let mut entries: Vec<Option<String>> = Vec::new();
        let mut z: usize = 0;
        while z < n
            invariant
                entries@.len() == z <= n,
                forall|i: int| 0 <= i < z ==> #[trigger] entries@[i] is None,
            decreases n - z,
        {
            entries.push(None);
            z += 1;
        }
        FlattenCache { entries }
    }
}

/// Serializes the subtree rooted at `id`, caching the result per node.
pub fn flatten_subtree(tree: &TagTree, id: NodeId, cache: &mut FlattenCache) -> (r: String)
    requires
        wf_arena(tree.nodes@),
        id < tree.nodes@.len(),
        old(cache).valid(tree.nodes@),
    ensures
        r@ == flatten_at(tree.nodes@, id as int),
        final(cache).valid(tree.nodes@),
    decreases tree.nodes@.len() - id,
{
    let ghost t = tree.nodes@;
    if let Some(cached) = &cache.entries[id] {
        return cached.clone();
    }
    let node = &tree.nodes[id];
    let mut s = String::new();
    let is_text = str_eq(node.tag_name.as_str(), "text");
    let skipped = is_text && match &node.raw_text {
        Some(raw) => !str_is_blank(raw.as_str()),
        None => false,
    };
    proof {
        assert(skipped == elided(t[id as int]));
    }
    if !skipped {
        s.append("<");
        s.append(node.tag_name.as_str());
        s.append(">");
        let ghost open_part = "<"@ + t[id as int].tag_name@ + ">"@;
        proof {
            assert(s@ =~= open_part);
        }
        let m = node.children.len();
        let mut j: usize = 0;
        while j < m
            invariant
                wf_arena(t),
                tree.nodes@ == t,
                id < t.len(),
                node == &t[id as int],
                m == t[id as int].children@.len(),
                cache.valid(t),
                j <= m,
                s@ + flatten_kids(t, id as int, j as int) == open_part + flatten_kids(
                    t,
                    id as int,
                    0,
                ),
            decreases m - j,
        {
            let c = node.children[j];
            proof {
                assert(t[id as int].wf_in(t, id as int));
            }
            let piece = flatten_subtree(tree, c, cache);
            proof {
                assert((s@ + piece@) + flatten_kids(t, id as int, j + 1) =~= s@ + (piece@
                    + flatten_kids(t, id as int, j + 1)));
                assert(piece@ + flatten_kids(t, id as int, j + 1) == flatten_kids(
                    t,
                    id as int,
                    j as int,
                ));
            }
            s.append(piece.as_str());
            j += 1;
        }
        proof {
            assert(flatten_kids(t, id as int, m as int) =~= Seq::<char>::empty());
            assert(s@ + Seq::<char>::empty() =~= s@);
            assert(s@ == open_part + flatten_kids(t, id as int, 0));
        }
        if !is_text {
            s.append("</");
            s.append(node.tag_name.as_str());
            s.append(">");
            proof {
                assert(s@ =~= (open_part + flatten_kids(t, id as int, 0)) + ("</"@
                    + t[id as int].tag_name@ + ">"@));
                assert(s@ =~= flatten_at(t, id as int));
            }
        } else {
            proof {
                assert(flatten_at(t, id as int) =~= open_part + flatten_kids(t, id as int, 0)
                    + Seq::<char>::empty());
                assert(s@ =~= flatten_at(t, id as int));
            }
        }
    } else {
        proof {
            assert(s@ =~= flatten_at(t, id as int));
        }
    }
    let copy = s.clone();
    let ghost pre = cache.entries@;
    cache.entries.set(id, Some(s));
    proof {
        assert forall|i: int| 0 <= i < t.len() implies match #[trigger] cache.entries@[i] {
            Some(q) => q@ == flatten_at(t, i),
            None => true,
        } by {
            if i != id {
                assert(cache.entries@[i] == pre[i]);
            }
        }
    }
    copy
}

/// The serialization of the subtree rooted at `i` with XPath attributes and
/// raw text kept: a debugging view, never used for distances.
pub open spec fn flatten_xp_at(t: Seq<TagNode>, i: int) -> Seq<char>
    decreases t.len() - i, t[i].children@.len() + 1,
{
    if !(0 <= i < t.len() && t[i].wf_in(t, i)) {
        Seq::empty()
    } else {
        "<"@ + t[i].tag_name@ + " xpath=\""@ + t[i].xpath@ + "\">"@ + (match t[i].raw_text {
            Some(s) => s@,
            None => Seq::<char>::empty(),
        }) + flatten_xp_kids(t, i, 0) + "</"@ + t[i].tag_name@ + ">"@
    }
}

pub open spec fn flatten_xp_kids(t: Seq<TagNode>, i: int, j: int) -> Seq<char>
    decreases t.len() - i, t[i].children@.len() - j,
{
    if 0 <= i < t.len() && t[i].wf_in(t, i) && 0 <= j < t[i].children@.len() {
        flatten_xp_at(t, t[i].children@[j] as int) + flatten_xp_kids(t, i, j + 1)
    } else {
        Seq::empty()
    }
}

/// Serializes the subtree rooted at `id` with XPath attributes and raw text.
pub fn flatten_subtree_with_xpath(tree: &TagTree, id: NodeId) -> (r: String)
    requires
        wf_arena(tree.nodes@),
        id < tree.nodes@.len(),
    ensures
        r@ == flatten_xp_at(tree.nodes@, id as int),
    decreases tree.nodes@.len() - id,
{
    let ghost t = tree.nodes@;
    let node = &tree.nodes[id];
    let mut s = String::new();
    s.append("<");
    s.append(node.tag_name.as_str());
    s.append(" xpath=\"");
    s.append(node.xpath.as_str());
    s.append("\">");
    if let Some(raw) = &node.raw_text {
        s.append(raw.as_str());
    }
    let ghost open_part = "<"@ + t[id as int].tag_name@ + " xpath=\""@ + t[id as int].xpath@
        + "\">"@ + (match t[id as int].raw_text {
        Some(q) => q@,
        None => Seq::<char>::empty(),
    });
    proof {
        assert(s@ =~= open_part);
    }
    let m = node.children.len();
    let mut j: usize = 0;
    while j < m
        invariant
            wf_arena(t),
            tree.nodes@ == t,
            id < t.len(),
            node == &t[id as int],
            m == t[id as int].children@.len(),
            j <= m,
            s@ + flatten_xp_kids(t, id as int, j as int) == open_part + flatten_xp_kids(
                t,
                id as int,
                0,
            ),
        decreases m - j,
    {
        let c = node.children[j];
        proof {
            assert(t[id as int].wf_in(t, id as int));
        }
        let piece = flatten_subtree_with_xpath(tree, c);
        proof {
            assert((s@ + piece@) + flatten_xp_kids(t, id as int, j + 1) =~= s@ + (piece@
                + flatten_xp_kids(t, id as int, j + 1)));
            assert(piece@ + flatten_xp_kids(t, id as int, j + 1) == flatten_xp_kids(
                t,
                id as int,
                j as int,
            ));
        }
        s.append(piece.as_str());
        j += 1;
    }
    proof {
        assert(flatten_xp_kids(t, id as int, m as int) =~= Seq::<char>::empty());
        assert(s@ + Seq::<char>::empty() =~= s@);
    }
    s.append("</");
    s.append(node.tag_name.as_str());
    s.append(">");
    proof {
        assert(s@ =~= ((open_part + flatten_xp_kids(t, id as int, 0)) + "</"@
            + t[id as int].tag_name@ + ">"@));
        assert(s@ =~= flatten_xp_at(t, id as int));
    }
    s
}

/// A fresh vector holding the child ids of `id` in order.
pub fn get_children(tree: &TagTree, id: NodeId) -> (r: Vec<NodeId>)
    requires
        id < tree.nodes@.len(),
    ensures
        r@ == tree.nodes@[id as int].children@,
{
    let m = tree.nodes[id].children.len();
    let mut out: Vec<NodeId> = Vec::new();
    let mut j: usize = 0;
    while j < m
        invariant
            id < tree.nodes@.len(),
            m == tree.nodes@[id as int].children@.len(),
            j <= m,
            out@ == tree.nodes@[id as int].children@.take(j as int),
        decreases m - j,
    {
        out.push(tree.nodes[id].children[j]);
        proof {
            assert(out@ =~= tree.nodes@[id as int].children@.take(j + 1));
        }
        j += 1;
    }
    proof {
        assert(tree.nodes@[id as int].children@.take(m as int) =~= tree.nodes@[id as int].children@);
    }
    out
}

/// The first node of the subtree rooted at `i`, in depth-first order, whose
/// XPath equals `xp`.
pub open spec fn xpath_lookup(t: Seq<TagNode>, i: int, xp: Seq<char>) -> Option<int>
    decreases t.len() - i, t[i].children@.len() + 1,
{
    if !(0 <= i < t.len() && t[i].wf_in(t, i)) {
        None
    } else if t[i].xpath@ == xp {
        Some(i)
    } else {
        xpath_lookup_kids(t, i, 0, xp)
    }
}

pub open spec fn xpath_lookup_kids(t: Seq<TagNode>, i: int, j: int, xp: Seq<char>) -> Option<int>
    decreases t.len() - i, t[i].children@.len() - j,
{
    if 0 <= i < t.len() && t[i].wf_in(t, i) && 0 <= j < t[i].children@.len() {
        match xpath_lookup(t, t[i].children@[j] as int, xp) {
            Some(r) => Some(r),
            None => xpath_lookup_kids(t, i, j + 1, xp),
        }
    } else {
        None
    }
}

/// Finds the first node (in depth-first order from `id`) whose XPath equals
/// `xpath`.
pub fn get_node_by_xpath(tree: &TagTree, id: NodeId, xpath: &str) -> (r: Option<NodeId>)
    requires
        wf_arena(tree.nodes@),
        id < tree.nodes@.len(),
    ensures
        match r {
            Some(x) => xpath_lookup(tree.nodes@, id as int, xpath@) == Some(x as int) && x
                < tree.nodes@.len(),
            None => xpath_lookup(tree.nodes@, id as int, xpath@) is None,
        },
    decreases tree.nodes@.len() - id,
{
    let ghost t = tree.nodes@;
    let node = &tree.nodes[id];
    if str_eq(node.xpath.as_str(), xpath) {
        return Some(id);
    }
    let m = node.children.len();
    let mut j: usize = 0;
    while j < m
        invariant
            wf_arena(t),
            tree.nodes@ == t,
            id < t.len(),
            node == &t[id as int],
            m == t[id as int].children@.len(),
            t[id as int].xpath@ != xpath@,
            j <= m,
            xpath_lookup_kids(t, id as int, 0, xpath@) == xpath_lookup_kids(
                t,
                id as int,
                j as int,
                xpath@,
            ),
        decreases m - j,
    {
        let c = node.children[j];
        proof {
            assert(t[id as int].wf_in(t, id as int));
        }
        if let Some(found) = get_node_by_xpath(tree, c, xpath) {
            return Some(found);
        }
        j += 1;
    }
    None
}

/// The number of nodes in the subtree rooted at `i`.
pub open spec fn count_at(t: Seq<TagNode>, i: int) -> nat
    decreases t.len() - i, t[i].children@.len() + 1,
{
    if !(0 <= i < t.len() && t[i].wf_in(t, i)) {
        1
    } else {
        1 + count_kids(t, i, 0)
    }
}

pub open spec fn count_kids(t: Seq<TagNode>, i: int, j: int) -> nat
    decreases t.len() - i, t[i].children@.len() - j,
{
    if 0 <= i < t.len() && t[i].wf_in(t, i) && 0 <= j < t[i].children@.len() {
        count_at(t, t[i].children@[j] as int) + count_kids(t, i, j + 1)
    } else {
        0
    }
}

/// Counts the nodes of the subtree rooted at `id`.
pub fn count_nodes(tree: &TagTree, id: NodeId) -> (r: usize)
    requires
        wf_arena(tree.nodes@),
        id < tree.nodes@.len(),
        count_at(tree.nodes@, id as int) <= usize::MAX,
    ensures
        r == count_at(tree.nodes@, id as int),
    decreases tree.nodes@.len() - id,
{
    let ghost t = tree.nodes@;
    let node = &tree.nodes[id];
    let mut count: usize = 1;
    let m = node.children.len();
    let mut j: usize = 0;
    while j < m
        invariant
            wf_arena(t),
            tree.nodes@ == t,
            id < t.len(),
            node == &t[id as int],
            m == t[id as int].children@.len(),
            j <= m,
            count + count_kids(t, id as int, j as int) == 1 + count_kids(t, id as int, 0),
            1 + count_kids(t, id as int, 0) <= usize::MAX,
        decreases m - j,
    {
        let c = node.children[j];
        proof {
            assert(t[id as int].wf_in(t, id as int));
        }
        count = count + count_nodes(tree, c);
        j += 1;
    }
    count
}

pub open spec fn nat_max(a: nat, b: nat) -> nat {
    if a >= b {
        a
    } else {
        b
    }
}

/// The height of the subtree rooted at `i`: 1 for a leaf.
pub open spec fn depth_at(t: Seq<TagNode>, i: int) -> nat
    decreases t.len() - i, t[i].children@.len() + 1,
{
    if !(0 <= i < t.len() && t[i].wf_in(t, i)) {
        1
    } else {
        1 + depth_kids(t, i, 0)
    }
}

pub open spec fn depth_kids(t: Seq<TagNode>, i: int, j: int) -> nat
    decreases t.len() - i, t[i].children@.len() - j,
{
    if 0 <= i < t.len() && t[i].wf_in(t, i) && 0 <= j < t[i].children@.len() {
        nat_max(depth_at(t, t[i].children@[j] as int), depth_kids(t, i, j + 1))
    } else {
        0
    }
}

/// The height of a subtree is bounded by how many nodes sit above the end of
/// the arena, since child indices strictly increase.
pub proof fn lemma_depth_bound(t: Seq<TagNode>, i: int)
    requires
        0 <= i < t.len(),
    ensures
        depth_at(t, i) <= t.len() - i,
    decreases t.len() - i, t[i].children@.len() + 1,
{
    if t[i].wf_in(t, i) {
        lemma_depth_kids_bound(t, i, 0);
    }
}

proof fn lemma_depth_kids_bound(t: Seq<TagNode>, i: int, j: int)
    requires
        0 <= i < t.len(),
        t[i].wf_in(t, i),
        0 <= j,
    ensures
        depth_kids(t, i, j) <= if t.len() - i - 1 >= 0 {
            t.len() - i - 1
        } else {
            0
        },
    decreases t.len() - i, t[i].children@.len() - j,
{
    if j < t[i].children@.len() {
        let c = t[i].children@[j] as int;
        lemma_depth_bound(t, c);
        lemma_depth_kids_bound(t, i, j + 1);
    }
}

/// The height of the subtree rooted at `id`.
pub fn get_depth(tree: &TagTree, id: NodeId) -> (r: usize)
    requires
        wf_arena(tree.nodes@),
        id < tree.nodes@.len(),
    ensures
        r == depth_at(tree.nodes@, id as int),
    decreases tree.nodes@.len() - id,
{
    let ghost t = tree.nodes@;
    let node = &tree.nodes[id];
    let m = node.children.len();
    let mut best: usize = 0;
    let mut j: usize = 0;
    while j < m
        invariant
            wf_arena(t),
            tree.nodes@ == t,
            id < t.len(),
            node == &t[id as int],
            m == t[id as int].children@.len(),
            j <= m,
            nat_max(best as nat, depth_kids(t, id as int, j as int)) == depth_kids(t, id as int, 0),
            best <= t.len() - id - 1,
        decreases m - j,
    {
        let c = node.children[j];
        proof {
            assert(t[id as int].wf_in(t, id as int));
            lemma_depth_bound(t, c as int);
        }
        let d = get_depth(tree, c);
        if d > best {
            best = d;
        }
        j += 1;
    }
    proof {
        assert(depth_kids(t, id as int, m as int) == 0);
        assert(best == depth_kids(t, id as int, 0));
    }
    1 + best
}

} // verus!
