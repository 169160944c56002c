//! Data model: the tag-tree arena, regions, records, errors, and the exact
//! rational numbers used for normalized edit distances and thresholds.

use vstd::prelude::*;

verus! {

/// Identity of a node: its index in the arena that holds the tree.
pub type NodeId = usize;

/// A data region under one parent: `(gn_length, start_index, node_count)`.
///
/// `gn_length` siblings form one generalized node; the region starts at child
/// position `start_index` and spans `node_count` children in total.
pub type DataRegion = (usize, usize, usize);

/// One node of the tag tree.  `children` holds arena indices; in a
/// well-formed tree every child index is strictly greater than the index of
/// its parent, so the arena is topologically ordered.
#[derive(Debug, Clone)]
pub struct TagNode {
    pub tag_name: String,
    pub children: Vec<NodeId>,
    pub raw_text: Option<String>,
    pub xpath: String,
}

/// A tag tree: an arena of nodes whose root is the node at index 0.
#[derive(Debug, Clone)]
pub struct TagTree {
    pub nodes: Vec<TagNode>,
}

/// The regions found under one parent, identified by the parent's XPath.
#[derive(Debug, Clone)]
pub struct RegionsMapItem {
    pub parent_xpath: String,
    pub regions: Vec<DataRegion>,
}

/// A data record: one node, or an ordered group of sibling nodes.
#[derive(Debug, Clone)]
pub enum DataRecord {
    Single(NodeId),
    Multi(Vec<NodeId>),
}

/// Everything the engine produces in one run.
#[derive(Debug)]
pub struct MdrFullOutput {
    pub regions: Vec<RegionsMapItem>,
    pub records: Vec<DataRecord>,
    pub orphans: Vec<NodeId>,
}

/// Failures surfaced at the library boundary.
#[derive(Debug, PartialEq, Eq, Structural)]
pub enum MdrError {
    /// The tree handed in is not a well-formed arena.
    InvalidTree,
    /// `k < 1`, or the threshold does not lie in `[0, 1]`.
    InvalidParameter,
    /// An indexing assumption failed: a region of the map does not fit
    /// inside its parent's children.
    InternalError,
}

/// An exact nonnegative rational `num / den`, used for normalized edit
/// distances.  Distances produced by this library satisfy [`Dist::wf`]:
/// `den >= 1` and `num <= den`, so the value lies in `[0, 1]`.
#[derive(Clone, Copy, Debug)]
pub struct Dist {
    pub num: usize,
    pub den: usize,
}

/// A similarity threshold, an exact rational `num / den` in `[0, 1]`.
#[derive(Clone, Copy, Debug)]
pub struct Threshold {
    pub num: u64,
    pub den: u64,
}

/// `a <= b` on rationals given as `(numerator, denominator)` pairs with
/// positive denominators, by cross-multiplication.
pub open spec fn rat_le(a: (int, int), b: (int, int)) -> bool {
    a.0 * b.1 <= b.0 * a.1
}

impl Dist {
    pub open spec fn view(self) -> (int, int) {
        (self.num as int, self.den as int)
    }

    pub open spec fn wf(self) -> bool {
        1 <= self.den && self.num <= self.den
    }

    /// Whether this distance is at or below the threshold `t`.
    pub fn le_threshold(&self, t: &Threshold) -> (r: bool)
        ensures
            r == rat_le(self@, t@),
    {
        let a = self.num as u128;
        let b = t.den as u128;
        let c = t.num as u128;
        let d = self.den as u128;
        proof {
            assert(a * b <= 0xFFFFFFFFFFFFFFFFu128 * 0xFFFFFFFFFFFFFFFFu128 && c * d
                <= 0xFFFFFFFFFFFFFFFFu128 * 0xFFFFFFFFFFFFFFFFu128) by (nonlinear_arith)
                requires
                    a <= 0xFFFFFFFFFFFFFFFFu128,
                    b <= 0xFFFFFFFFFFFFFFFFu128,
                    c <= 0xFFFFFFFFFFFFFFFFu128,
                    d <= 0xFFFFFFFFFFFFFFFFu128,
            ;
        }
        a * b <= c * d
    }
}

impl Threshold {
    pub open spec fn view(self) -> (int, int) {
        (self.num as int, self.den as int)
    }

    pub open spec fn wf(self) -> bool {
        1 <= self.den && self.num <= self.den
    }

    /// The threshold `num / den`, rejected unless it lies in `[0, 1]`.
    pub fn new(num: u64, den: u64) -> (r: Result<Threshold, MdrError>)
        ensures
            match r {
                Ok(t) => t.num == num && t.den == den && t.wf(),
                Err(e) => e == MdrError::InvalidParameter && !(1 <= den && num <= den),
            },
    {
        if 1 <= den && num <= den {
            Ok(Threshold { num, den })
        } else {
            Err(MdrError::InvalidParameter)
        }
    }
}

impl TagNode {
    /// Whether the fields of this node make sense inside the arena `t`:
    /// every child index lies in the arena and is strictly greater than `me`.
    pub open spec fn wf_in(self, t: Seq<TagNode>, me: int) -> bool {
        forall|j: int|
            0 <= j < self.children@.len() ==> me < #[trigger] self.children@[j] < t.len()
    }

    pub fn new(tag_name: String, xpath: String) -> (r: TagNode)
        ensures
            r.tag_name == tag_name,
            r.children@ == Seq::<NodeId>::empty(),
            r.raw_text is None,
            r.xpath == xpath,
    {
        TagNode { tag_name, children: Vec::new(), raw_text: None, xpath }
    }

    pub fn add_child(&mut self, child: NodeId)
        ensures
            final(self).children@ == old(self).children@.push(child),
            final(self).tag_name == old(self).tag_name,
            final(self).raw_text == old(self).raw_text,
            final(self).xpath == old(self).xpath,
    {
        self.children.push(child);
    }

    pub fn set_raw_text(&mut self, text: String)
        ensures
            final(self).raw_text == Some(text),
            final(self).tag_name == old(self).tag_name,
            final(self).children == old(self).children,
            final(self).xpath == old(self).xpath,
    {
        self.raw_text = Some(text);
    }
}

/// The basic arena invariant: the tree is nonempty, small enough that a pair
/// of node indices can be packed into a memo key, and every child index is in
/// range and strictly greater than its parent's index (so recursion down the
/// tree terminates).
pub open spec fn wf_arena(t: Seq<TagNode>) -> bool {
    &&& 1 <= t.len() <= 0xFFFF_FFFF
    &&& forall|i: int| 0 <= i < t.len() ==> (#[trigger] t[i]).wf_in(t, i)
}

/// The full tree invariant: on top of [`wf_arena`], the root is nobody's
/// child and no index appears twice as a child, so each node has at most one
/// parent and sibling lists never share nodes.
pub open spec fn wf_tree(t: Seq<TagNode>) -> bool {
    &&& wf_arena(t)
    &&& forall|i: int, j: int|
        0 <= i < t.len() && 0 <= j < t[i].children@.len() ==> #[trigger] t[i].children@[j] != 0
    &&& forall|i1: int, j1: int, i2: int, j2: int|
        0 <= i1 < t.len() && 0 <= j1 < t[i1].children@.len() && 0 <= i2 < t.len() && 0 <= j2
            < t[i2].children@.len() && #[trigger] t[i1].children@[j1] == #[trigger] t[i2].children@[j2]
            ==> i1 == i2 && j1 == j2
}

impl TagTree {
    pub open spec fn wf(self) -> bool {
        wf_tree(self.nodes@)
    }

    /// A tree holding only the given root node, which must not yet have
    /// children.
    pub fn with_root(root: TagNode) -> (r: TagTree)
        requires
            root.children@ == Seq::<NodeId>::empty(),
        ensures
            r.nodes@ == seq![root],
            r.wf(),
    {
        let nodes = vec![root];
        let r = TagTree { nodes };
        proof {
            assert forall|i: int| 0 <= i < r.nodes@.len() implies (#[trigger] r.nodes@[i]).wf_in(
                r.nodes@,
                i,
            ) by {
                assert(r.nodes@[i].children@.len() == 0);
            }
        }
        r
    }

    /// Appends `node` to the arena as a new child of `parent` and returns its
    /// id.  Building a tree through this method keeps it well formed.
    pub fn add_node(&mut self, parent: NodeId, node: TagNode) -> (id: NodeId)
        requires
            old(self).wf(),
            parent < old(self).nodes@.len(),
            node.children@ == Seq::<NodeId>::empty(),
            old(self).nodes@.len() < 0xFFFF_FFFF,
        ensures
            final(self).wf(),
            id == old(self).nodes@.len(),
            final(self).nodes@.len() == old(self).nodes@.len() + 1,
            final(self).nodes@[id as int].tag_name == node.tag_name,
            final(self).nodes@[id as int].raw_text == node.raw_text,
            final(self).nodes@[id as int].xpath == node.xpath,
            final(self).nodes@[id as int].children@ == Seq::<NodeId>::empty(),
            final(self).nodes@[parent as int].children@ == old(self).nodes@[parent as int].children@.push(
                id,
            ),
            forall|i: int|
                0 <= i < old(self).nodes@.len() && i != parent ==> final(self).nodes@[i]
                    == old(self).nodes@[i],
            forall|i: int|
                0 <= i < old(self).nodes@.len() && i != parent ==> final(self).nodes@[i].children
                    == old(self).nodes@[i].children,
    {
        let id = self.nodes.len();
        self.nodes.push(node);
        let parent_node = &mut self.nodes[parent];
        parent_node.children.push(id);
        proof {
            let t = self.nodes@;
            let t0 = old(self).nodes@;
            assert forall|i: int| 0 <= i < t.len() implies (#[trigger] t[i]).wf_in(t, i) by {
                if i == parent {
                    assert(t[i].children@ == t0[i].children@.push(id));
                    assert forall|j: int| 0 <= j < t[i].children@.len() implies i
                        < #[trigger] t[i].children@[j] < t.len() by {
                        if j < t0[i].children@.len() {
                            assert(t0[i].wf_in(t0, i));
                        }
                    }
                } else if i < t0.len() {
                    assert(t0[i].wf_in(t0, i));
                    assert(t[i].children@ == t0[i].children@);
                } else {
                    assert(t[i].children@.len() == 0);
                }
            }
            assert forall|i1: int, j1: int, i2: int, j2: int|
                0 <= i1 < t.len() && 0 <= j1 < t[i1].children@.len() && 0 <= i2 < t.len() && 0 <= j2
                    < t[i2].children@.len() && #[trigger] t[i1].children@[j1]
                    == #[trigger] t[i2].children@[j2] implies i1 == i2 && j1 == j2 by {
                let c = t[i1].children@[j1];
                if c == id {
                    assert(i1 == parent && j1 == t0[parent as int].children@.len()) by {
                        if i1 != parent || j1 < t0[i1].children@.len() {
                            assert(i1 < t0.len());
                            assert(t0[i1].children@[j1] == c);
                            assert(t0[i1].wf_in(t0, i1));
                        }
                    }
                    assert(i2 == parent && j2 == t0[parent as int].children@.len()) by {
                        if i2 != parent || j2 < t0[i2].children@.len() {
                            assert(i2 < t0.len());
                            assert(t0[i2].children@[j2] == c);
                            assert(t0[i2].wf_in(t0, i2));
                        }
                    }
                } else {
                    assert(i1 < t0.len() && (i1 != parent || j1 < t0[i1].children@.len()));
                    assert(i2 < t0.len() && (i2 != parent || j2 < t0[i2].children@.len()));
                    assert(t0[i1].children@[j1] == c && t0[i2].children@[j2] == c);
                }
            }
        }
        id
    }

    /// Checks the full tree invariant at run time, for trees that were not
    /// built through [`TagTree::add_node`].
    pub fn is_well_formed(&self) -> (r: bool)
        ensures
            r == self.wf(),
    {
        let n = self.nodes.len();
        if n < 1 || n > 0xFFFF_FFFFusize {
            return false;
        }
        // seen[c] records that c already appeared as some node's child.
        let mut seen: Vec<bool> = Vec::new();
        let mut z: usize = 0;
        while z < n
            invariant
                seen@.len() == z <= n,
                forall|c: int| 0 <= c < z ==> !seen@[c],
            decreases n - z,
        {
            seen.push(false);
            z += 1;
        }
        let ghost t = self.nodes@;
        let mut i: usize = 0;
        while i < n
            invariant
                self.nodes@ == t,
                n == t.len(),
                1 <= n <= 0xFFFF_FFFF,
                seen@.len() == n,
                i <= n,
                forall|p: int| 0 <= p < i ==> (#[trigger] t[p]).wf_in(t, p),
                forall|p: int, j: int|
                    0 <= p < i && 0 <= j < t[p].children@.len() ==> #[trigger] t[p].children@[j]
                        != 0,
                forall|c: int|
                    0 <= c < n ==> (seen@[c] <==> exists|p: int, j: int|
                        0 <= p < i && 0 <= j < t[p].children@.len() && #[trigger] t[p].children@[j]
                            == c),
                forall|p1: int, j1: int, p2: int, j2: int|
                    0 <= p1 < i && 0 <= j1 < t[p1].children@.len() && 0 <= p2 < i && 0 <= j2
                        < t[p2].children@.len() && #[trigger] t[p1].children@[j1]
                        == #[trigger] t[p2].children@[j2] ==> p1 == p2 && j1 == j2,
            decreases n - i,
        {
            let m = self.nodes[i].children.len();
            let mut j: usize = 0;
            while j < m
                invariant
                    self.nodes@ == t,
                    n == t.len(),
                    1 <= n <= 0xFFFF_FFFF,
                    i < n,
                    m == t[i as int].children@.len(),
                    seen@.len() == n,
                    j <= m,
                    forall|jj: int| 0 <= jj < j ==> i < #[trigger] t[i as int].children@[jj] < n,
                    forall|jj: int| 0 <= jj < j ==> #[trigger] t[i as int].children@[jj] != 0,
                    forall|p: int| 0 <= p < i ==> (#[trigger] t[p]).wf_in(t, p),
                    forall|p: int, jj: int|
                        0 <= p < i && 0 <= jj < t[p].children@.len() ==> #[trigger] t[p].children@[jj]
                            != 0,
                    forall|c: int|
                        0 <= c < n ==> (seen@[c] <==> exists|p: int, jj: int|
                            (0 <= p < i && 0 <= jj < t[p].children@.len() || p == i && 0 <= jj < j)
                                && #[trigger] t[p].children@[jj] == c),
                    forall|p1: int, j1: int, p2: int, j2: int|
                        (0 <= p1 < i && 0 <= j1 < t[p1].children@.len() || p1 == i && 0 <= j1 < j)
                            && (0 <= p2 < i && 0 <= j2 < t[p2].children@.len() || p2 == i && 0 <= j2
                            < j) && #[trigger] t[p1].children@[j1] == #[trigger] t[p2].children@[j2]
                            ==> p1 == p2 && j1 == j2,
                decreases m - j,
            {
                let c = self.nodes[i].children[j];
                if c <= i || c >= n {
                    proof {
                        assert(!t[i as int].wf_in(t, i as int));
                    }
                    return false;
                }
                if c == 0 {
                    proof {
                        assert(t[i as int].children@[j as int] == 0);
                        assert(!wf_tree(t));
                    }
                    return false;
                }
                if seen[c] {
                    proof {
                        let (p, jj): (int, int) = choose|p: int, jj: int|
                            (0 <= p < i && 0 <= jj < t[p].children@.len() || p == i && 0 <= jj < j)
                                && #[trigger] t[p].children@[jj] == c;
                        assert(t[p].children@[jj] == t[i as int].children@[j as int]);
                        assert(!(p == i && jj == j));
                        assert(!wf_tree(t));
                    }
                    return false;
                }
                seen.set(c, true);
                j += 1;
                proof {
                    assert forall|cc: int| 0 <= cc < n implies (seen@[cc] <==> exists|p: int, jj: int|
                        (0 <= p < i && 0 <= jj < t[p].children@.len() || p == i && 0 <= jj < j)
                            && #[trigger] t[p].children@[jj] == cc) by {
                        if cc == c {
                            assert(t[i as int].children@[j - 1] == cc);
                        } else {
                            if exists|p: int, jj: int|
                                (0 <= p < i && 0 <= jj < t[p].children@.len() || p == i && 0 <= jj
                                    < j) && #[trigger] t[p].children@[jj] == cc {
                                let (p, jj): (int, int) = choose|p: int, jj: int|
                                    (0 <= p < i && 0 <= jj < t[p].children@.len() || p == i && 0
                                        <= jj < j) && #[trigger] t[p].children@[jj] == cc;
                                assert(!(p == i && jj == j - 1));
                                assert(t[p].children@[jj] == cc);
                            }
                        }
                    }
                }
            }
            i += 1;
        }
        proof {
            assert(wf_tree(t));
        }
        true
    }
}

} // verus!
