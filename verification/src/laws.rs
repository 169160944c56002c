//! Properties that relate several operations: determinism of the region
//! finder, idempotence of the memos, and disjointness of the records
//! extracted from one region.

use vstd::prelude::*;
use crate::mdr_algorithm::{mdr_entries_spec, nonempty_from};
use crate::record_extraction::{column_records_from, components_ok, find_records1_spec,
    find_records_n_spec, gather_column, merged_records, singles_view, std_records_from};
use crate::similarity::node_dist_spec;
use crate::tree_utils::flatten_at;
use crate::types::{DataRegion, NodeId, TagNode, wf_tree};

verus! {

/// Region identification is a pure function of the tree, `k` and the
/// threshold: two runs on the same inputs yield the same regions map.
/// (The executable entry point promises its result equals this spec, so
/// repeated calls return identical output.)
pub proof fn lemma_run_mdr_deterministic(
    t: Seq<TagNode>,
    k: int,
    th: (int, int),
    out1: Seq<(Seq<char>, Seq<DataRegion>)>,
    out2: Seq<(Seq<char>, Seq<DataRegion>)>,
)
    requires
        out1 == nonempty_from(mdr_entries_spec(t, k, th), 0),
        out2 == nonempty_from(mdr_entries_spec(t, k, th), 0),
    ensures
        out1 == out2,
{
}

/// The node-pair distance is a function of the tree and the pair alone, so
/// clearing the memo and recomputing yields the same value.  (The
/// executable distance promises its result equals this spec whatever the
/// cache held.)
pub proof fn lemma_distance_cache_idempotent(
    t: Seq<TagNode>,
    a: int,
    b: int,
    d1: (int, int),
    d2: (int, int),
)
    requires
        d1 == node_dist_spec(t, a, b),
        d2 == node_dist_spec(t, a, b),
    ensures
        d1 == d2,
{
}

/// Serialization is a function of the tree and the node alone, so repeated
/// flattening returns the same characters.  (The executable serializer
/// promises its result equals this spec on hits and misses alike.)
pub proof fn lemma_flatten_idempotent(t: Seq<TagNode>, i: int, s1: Seq<char>, s2: Seq<char>)
    requires
        s1 == flatten_at(t, i),
        s2 == flatten_at(t, i),
    ensures
        s1 == s2,
{
}

/// Whether `x` is a child of node `y`.
pub open spec fn child_of(t: Seq<TagNode>, x: NodeId, y: NodeId) -> bool {
    exists|w: int| 0 <= w < t[y as int].children@.len() && t[y as int].children@[w] == x
}

/// Whether `x` lies in the territory of child positions `[lo, hi)` of
/// parent `p`: it is one of those children or a child of one of them.
pub open spec fn in_terr(t: Seq<TagNode>, p: int, lo: int, hi: int, x: NodeId) -> bool {
    exists|j: int|
        lo <= j < hi && 0 <= j < t[p].children@.len() && (x == #[trigger] t[p].children@[j]
            || child_of(t, x, t[p].children@[j]))
}

/// In a well-formed tree, territories of disjoint position windows under
/// one parent share no node.
proof fn lemma_terr_disjoint(
    t: Seq<TagNode>,
    p: int,
    lo1: int,
    hi1: int,
    lo2: int,
    hi2: int,
    x: NodeId,
)
    requires
        wf_tree(t),
        0 <= p < t.len(),
        hi1 <= lo2,
    ensures
        !(in_terr(t, p, lo1, hi1, x) && in_terr(t, p, lo2, hi2, x)),
{
    if in_terr(t, p, lo1, hi1, x) && in_terr(t, p, lo2, hi2, x) {
        let ch = t[p].children@;
        let j1 = choose|j: int|
            lo1 <= j < hi1 && 0 <= j < ch.len() && (x == #[trigger] ch[j] || child_of(t, x, ch[j]));
        let j2 = choose|j: int|
            lo2 <= j < hi2 && 0 <= j < ch.len() && (x == #[trigger] ch[j] || child_of(t, x, ch[j]));
        assert(j1 < j2);
        assert(t[p].wf_in(t, p));
        if x == ch[j1] && x == ch[j2] {
            assert(t[p].children@[j1] == t[p].children@[j2]);
        } else if x == ch[j1] {
            let w = choose|w: int|
                0 <= w < t[ch[j2] as int].children@.len() && t[ch[j2] as int].children@[w] == x;
            assert(t[ch[j2] as int].children@[w] == t[p].children@[j1]);
            assert(ch[j2] as int == p && w == j1);
            assert(p < ch[j2] < t.len());
        } else if x == ch[j2] {
            let w = choose|w: int|
                0 <= w < t[ch[j1] as int].children@.len() && t[ch[j1] as int].children@[w] == x;
            assert(t[ch[j1] as int].children@[w] == t[p].children@[j2]);
            assert(ch[j1] as int == p && w == j2);
            assert(p < ch[j1] < t.len());
        } else {
            let w1 = choose|w: int|
                0 <= w < t[ch[j1] as int].children@.len() && t[ch[j1] as int].children@[w] == x;
            let w2 = choose|w: int|
                0 <= w < t[ch[j2] as int].children@.len() && t[ch[j2] as int].children@[w] == x;
            assert(t[ch[j1] as int].children@[w1] == t[ch[j2] as int].children@[w2]);
            assert(ch[j1] as int == ch[j2] as int && w1 == w2);
            assert(t[p].children@[j1] == t[p].children@[j2]);
        }
        assert(false);
    }
}

/// Every element gathered for column `c` is the `c`-th child of one of the
/// components.
proof fn lemma_gather_elems(t: Seq<TagNode>, comps: Seq<NodeId>, q0: int, c: int)
    requires
        0 <= c,
    ensures
        forall|a: int|
            0 <= a < gather_column(t, comps, q0, c).len() ==> exists|q: int|
                q0 <= q < comps.len() && 0 <= c < t[comps[q] as int].children@.len()
                    && #[trigger] gather_column(t, comps, q0, c)[a] == t[comps[q] as int].children@[c],
    decreases comps.len() - q0,
{
    if 0 <= q0 < comps.len() {
        lemma_gather_elems(t, comps, q0 + 1, c);
        let here = gather_column(t, comps, q0, c);
        let rest = gather_column(t, comps, q0 + 1, c);
        assert forall|a: int| 0 <= a < here.len() implies exists|q: int|
            q0 <= q < comps.len() && 0 <= c < t[comps[q] as int].children@.len()
                && #[trigger] here[a] == t[comps[q] as int].children@[c] by {
            if c < t[comps[q0] as int].children@.len() {
                if a == 0 {
                    assert(here[0] == t[comps[q0] as int].children@[c]);
                } else {
                    assert(here[a] == rest[a - 1]);
                    let q = choose|q: int|
                        q0 + 1 <= q < comps.len() && 0 <= c < t[comps[q] as int].children@.len()
                            && rest[a - 1] == t[comps[q] as int].children@[c];
                    assert(here[a] == t[comps[q] as int].children@[c]);
                }
            } else {
                assert(here[a] == rest[a]);
                let q = choose|q: int|
                    q0 + 1 <= q < comps.len() && 0 <= c < t[comps[q] as int].children@.len()
                        && rest[a] == t[comps[q] as int].children@[c];
                assert(here[a] == t[comps[q] as int].children@[c]);
            }
        }
    }
}

/// Column-wise records never share a node: two gathered elements sit at
/// their columns, and a node has only one position under its parent.
pub proof fn lemma_column_records_disjoint(t: Seq<TagNode>, comps: Seq<NodeId>, c0: int, count: int)
    requires
        wf_tree(t),
        forall|q: int| 0 <= q < comps.len() ==> #[trigger] comps[q] < t.len(),
    ensures
        forall|a: int|
            0 <= a < column_records_from(t, comps, c0, count).len() ==> exists|cc: int|
                c0 <= cc < count && #[trigger] column_records_from(t, comps, c0, count)[a] == (
                true,
                gather_column(t, comps, 0, cc),
                ) && gather_column(t, comps, 0, cc).len() > 0,
        forall|a1: int, a2: int, b1: int, b2: int|
            0 <= a1 < a2 < column_records_from(t, comps, c0, count).len() && 0 <= b1
                < column_records_from(t, comps, c0, count)[a1].1.len() && 0 <= b2
                < column_records_from(t, comps, c0, count)[a2].1.len() ==> (
            #[trigger] column_records_from(t, comps, c0, count)[a1].1[b1]) != (
            #[trigger] column_records_from(t, comps, c0, count)[a2].1[b2]),
    decreases count - c0,
{
    if 0 <= c0 < count {
        lemma_column_records_disjoint(t, comps, c0 + 1, count);
        let here = column_records_from(t, comps, c0, count);
        let rest = column_records_from(t, comps, c0 + 1, count);
        let head = gather_column(t, comps, 0, c0);
        lemma_gather_elems(t, comps, 0, c0);
        assert forall|a: int|
            0 <= a < here.len() implies exists|cc: int|
            c0 <= cc < count && #[trigger] here[a] == (true, gather_column(t, comps, 0, cc))
                && gather_column(t, comps, 0, cc).len() > 0 by {
            if head.len() > 0 {
                if a == 0 {
                    assert(here[0] == (true, gather_column(t, comps, 0, c0)));
                } else {
                    assert(here[a] == rest[a - 1]);
                }
            } else {
                assert(here[a] == rest[a]);
            }
        }
        assert forall|a1: int, a2: int, b1: int, b2: int|
            0 <= a1 < a2 < here.len() && 0 <= b1 < here[a1].1.len() && 0 <= b2
                < here[a2].1.len() implies (#[trigger] here[a1].1[b1]) != (
        #[trigger] here[a2].1[b2]) by {
            if head.len() > 0 && a1 == 0 {
                assert(here[0] == (true, head));
                assert(here[a2] == rest[a2 - 1]);
                let cc = choose|cc: int|
                    c0 + 1 <= cc < count && rest[a2 - 1] == (true, gather_column(t, comps, 0, cc))
                        && gather_column(t, comps, 0, cc).len() > 0;
                let x = here[0].1[b1];
                let y = here[a2].1[b2];
                if x == y {
                    lemma_gather_elems(t, comps, 0, cc);
                    let q1 = choose|q: int|
                        0 <= q < comps.len() && 0 <= c0 < t[comps[q] as int].children@.len()
                            && head[b1] == t[comps[q] as int].children@[c0];
                    let q2 = choose|q: int|
                        0 <= q < comps.len() && 0 <= cc < t[comps[q] as int].children@.len()
                            && gather_column(t, comps, 0, cc)[b2] == t[comps[q] as int].children@[cc];
                    assert(t[comps[q1] as int].children@[c0] == t[comps[q2] as int].children@[cc]);
                    assert(comps[q1] as int == comps[q2] as int && c0 == cc);
                }
            } else {
                let off = if head.len() > 0 {
                    1int
                } else {
                    0int
                };
                assert(here[a1] == rest[a1 - off]);
                assert(here[a2] == rest[a2 - off]);
            }
        }
    }
}

/// The records of a merged region never share a node.
pub proof fn lemma_merged_records_disjoint(t: Seq<TagNode>, comps: Seq<NodeId>)
    requires
        wf_tree(t),
        comps.len() > 0,
        forall|q: int| 0 <= q < comps.len() ==> #[trigger] comps[q] < t.len(),
    ensures
        forall|a1: int, a2: int, b1: int, b2: int|
            0 <= a1 < a2 < merged_records(t, comps).len() && 0 <= b1 < merged_records(
                t,
                comps,
            )[a1].1.len() && 0 <= b2 < merged_records(t, comps)[a2].1.len() ==> (
            #[trigger] merged_records(t, comps)[a1].1[b1]) != (#[trigger] merged_records(
                t,
                comps,
            )[a2].1[b2]),
{
    lemma_column_records_disjoint(t, comps, 0, t[comps[0] as int].children@.len() as int);
}

/// Every node of every record of the standard extraction from generalized
/// node `i` on lies in the territory of positions `[s + i*g, s + ngns*g)`,
/// and the records are pairwise disjoint.
proof fn lemma_std_from_disjoint(
    t: Seq<TagNode>,
    th: (int, int),
    p: int,
    g: int,
    s: int,
    i: int,
    ngns: int,
)
    requires
        wf_tree(t),
        0 <= p < t.len(),
        1 <= g,
        0 <= s,
        0 <= i,
        s + ngns * g <= t[p].children@.len(),
    ensures
        forall|a: int, b: int|
            0 <= a < std_records_from(t, th, t[p].children@, g, s, i, ngns).len() && 0 <= b
                < std_records_from(t, th, t[p].children@, g, s, i, ngns)[a].1.len() ==> in_terr(
                t,
                p,
                s + i * g,
                s + ngns * g,
                #[trigger] std_records_from(t, th, t[p].children@, g, s, i, ngns)[a].1[b],
            ),
        forall|a1: int, a2: int, b1: int, b2: int|
            0 <= a1 < a2 < std_records_from(t, th, t[p].children@, g, s, i, ngns).len() && 0 <= b1
                < std_records_from(t, th, t[p].children@, g, s, i, ngns)[a1].1.len() && 0 <= b2
                < std_records_from(t, th, t[p].children@, g, s, i, ngns)[a2].1.len() ==> (
            #[trigger] std_records_from(t, th, t[p].children@, g, s, i, ngns)[a1].1[b1]) != (
            #[trigger] std_records_from(t, th, t[p].children@, g, s, i, ngns)[a2].1[b2]),
    decreases ngns - i,
{
    let ch = t[p].children@;
    let recs = std_records_from(t, th, ch, g, s, i, ngns);
    if 0 <= i < ngns {
        assert(g * i + g <= g * ngns && g * i >= 0 && g * i == i * g && g * ngns == ngns * g)
            by (nonlinear_arith)
            requires
                1 <= g,
                0 <= i,
                i < ngns,
        ;
        let lo = s + i * g;
        let hi_gn = s + i * g + g;
        assert(hi_gn <= s + ngns * g);
        let comps = ch.subrange(lo, lo + g);
        assert(t[p].wf_in(t, p));
        assert forall|q: int| 0 <= q < comps.len() implies #[trigger] comps[q] < t.len() by {
            assert(comps[q] == ch[lo + q]);
        }
        lemma_std_from_disjoint(t, th, p, g, s, i + 1, ngns);
        let rest = std_records_from(t, th, ch, g, s, i + 1, ngns);
        let head = if g == 1 {
            singles_view(find_records1_spec(t, ch[lo] as NodeId, th))
        } else {
            find_records_n_spec(t, comps, th)
        };
        assert(recs == head + rest);
        // Every node of a head record lies in this generalized node's
        // territory.
        assert forall|a: int, b: int|
            0 <= a < head.len() && 0 <= b < head[a].1.len() implies in_terr(
            t,
            p,
            lo,
            hi_gn,
            #[trigger] head[a].1[b],
        ) by {
            if g == 1 {
                let node = ch[lo] as NodeId;
                let f1 = find_records1_spec(t, node, th);
                assert(head[a] == (false, seq![f1[a]]));
                let x = head[a].1[b];
                assert(x == f1[a]);
                if t[node as int].children@.len() > 0 && crate::similarity::all_similar_spec(
                    t,
                    t[node as int].children@,
                    th,
                ) && t[node as int].tag_name@ != "tr"@ {
                    assert(t[node as int].children@[a] == x);
                    assert(child_of(t, x, node));
                    assert(x == ch[lo] || child_of(t, x, ch[lo]));
                } else {
                    assert(x == node);
                }
                assert(lo <= lo < hi_gn && 0 <= lo < ch.len() && (x == ch[lo] || child_of(
                    t,
                    x,
                    ch[lo],
                )));
            } else {
                if components_ok(t, comps, th) && t[comps[0] as int].children@.len() > 0 {
                    assert(head == column_records_from(
                        t,
                        comps,
                        0,
                        t[comps[0] as int].children@.len() as int,
                    ));
                    lemma_column_records_disjoint(
                        t,
                        comps,
                        0,
                        t[comps[0] as int].children@.len() as int,
                    );
                    let cc = choose|cc: int|
                        0 <= cc < t[comps[0] as int].children@.len() && head[a] == (
                        true,
                        gather_column(t, comps, 0, cc),
                        ) && gather_column(t, comps, 0, cc).len() > 0;
                    lemma_gather_elems(t, comps, 0, cc);
                    let x = head[a].1[b];
                    let q = choose|q: int|
                        0 <= q < comps.len() && 0 <= cc < t[comps[q] as int].children@.len()
                            && gather_column(t, comps, 0, cc)[b] == t[comps[q] as int].children@[cc];
                    assert(x == t[comps[q] as int].children@[cc]);
                    assert(comps[q] == ch[lo + q]);
                    assert(child_of(t, x, ch[lo + q]));
                    assert(lo <= lo + q < hi_gn && 0 <= lo + q < ch.len());
                } else {
                    assert(head == seq![(true, comps)]);
                    let x = head[a].1[b];
                    assert(x == comps[b]);
                    assert(x == ch[lo + b]);
                    assert(lo <= lo + b < hi_gn && 0 <= lo + b < ch.len());
                }
            }
        }
        // Head records are pairwise disjoint among themselves.
        assert forall|a1: int, a2: int, b1: int, b2: int|
            0 <= a1 < a2 < head.len() && 0 <= b1 < head[a1].1.len() && 0 <= b2
                < head[a2].1.len() implies (#[trigger] head[a1].1[b1]) != (
        #[trigger] head[a2].1[b2]) by {
            if g == 1 {
                let node = ch[lo] as NodeId;
                let f1 = find_records1_spec(t, node, th);
                assert(head[a1] == (false, seq![f1[a1]]) && head[a2] == (false, seq![f1[a2]]));
                if t[node as int].children@.len() > 0 && crate::similarity::all_similar_spec(
                    t,
                    t[node as int].children@,
                    th,
                ) && t[node as int].tag_name@ != "tr"@ {
                    assert(f1 == t[node as int].children@);
                    if f1[a1] == f1[a2] {
                        assert(t[node as int].children@[a1] == t[node as int].children@[a2]);
                        assert(node < t.len());
                    }
                } else {
                    assert(f1.len() == 1);
                }
            } else {
                if components_ok(t, comps, th) && t[comps[0] as int].children@.len() > 0 {
                    lemma_column_records_disjoint(
                        t,
                        comps,
                        0,
                        t[comps[0] as int].children@.len() as int,
                    );
                } else {
                    assert(head.len() == 1);
                }
            }
        }
        // Combine head and rest.
        assert forall|a: int, b: int|
            0 <= a < recs.len() && 0 <= b < recs[a].1.len() implies in_terr(
            t,
            p,
            s + i * g,
            s + ngns * g,
            #[trigger] recs[a].1[b],
        ) by {
            if a < head.len() {
                assert(recs[a] == head[a]);
                assert(in_terr(t, p, lo, hi_gn, recs[a].1[b]));
                let j = choose|j: int|
                    lo <= j < hi_gn && 0 <= j < ch.len() && (recs[a].1[b] == #[trigger] ch[j]
                        || child_of(t, recs[a].1[b], ch[j]));
                assert(lo <= j < s + ngns * g);
            } else {
                assert(recs[a] == rest[a - head.len()]);
                assert(in_terr(t, p, s + (i + 1) * g, s + ngns * g, recs[a].1[b]));
                let j = choose|j: int|
                    s + (i + 1) * g <= j < s + ngns * g && 0 <= j < ch.len() && (recs[a].1[b]
                        == #[trigger] ch[j] || child_of(t, recs[a].1[b], ch[j]));
                assert(s + i * g <= j) by (nonlinear_arith)
                    requires
                        1 <= g,
                        s + (i + 1) * g <= j,
                        0 <= i,
                ;
            }
        }
        assert forall|a1: int, a2: int, b1: int, b2: int|
            0 <= a1 < a2 < recs.len() && 0 <= b1 < recs[a1].1.len() && 0 <= b2
                < recs[a2].1.len() implies (#[trigger] recs[a1].1[b1]) != (
        #[trigger] recs[a2].1[b2]) by {
            if a2 < head.len() {
                assert(recs[a1] == head[a1] && recs[a2] == head[a2]);
            } else if a1 >= head.len() {
                assert(recs[a1] == rest[a1 - head.len()] && recs[a2] == rest[a2 - head.len()]);
            } else {
                assert(recs[a1] == head[a1] && recs[a2] == rest[a2 - head.len()]);
                let x = recs[a1].1[b1];
                let y = recs[a2].1[b2];
                if x == y {
                    assert(in_terr(t, p, lo, hi_gn, x));
                    assert(in_terr(t, p, s + (i + 1) * g, s + ngns * g, y));
                    assert(hi_gn <= s + (i + 1) * g) by (nonlinear_arith)
                        requires
                            hi_gn == s + i * g + g,
                        ;
                    lemma_terr_disjoint(t, p, lo, hi_gn, s + (i + 1) * g, s + ngns * g, x);
                }
            }
        }
    }
}

/// Within one region, the records of the standard extraction are pairwise
/// disjoint: no node is emitted in two records of the same region.
pub proof fn lemma_region_records_disjoint(
    t: Seq<TagNode>,
    th: (int, int),
    p: int,
    g: int,
    s: int,
    c: int,
)
    requires
        wf_tree(t),
        0 <= p < t.len(),
        1 <= g,
        0 <= s,
        0 <= c,
        s + c <= t[p].children@.len(),
    ensures
        forall|a1: int, a2: int, b1: int, b2: int|
            0 <= a1 < a2 < std_records_from(t, th, t[p].children@, g, s, 0, c / g).len() && 0 <= b1
                < std_records_from(t, th, t[p].children@, g, s, 0, c / g)[a1].1.len() && 0 <= b2
                < std_records_from(t, th, t[p].children@, g, s, 0, c / g)[a2].1.len() ==> (
            #[trigger] std_records_from(t, th, t[p].children@, g, s, 0, c / g)[a1].1[b1]) != (
            #[trigger] std_records_from(t, th, t[p].children@, g, s, 0, c / g)[a2].1[b2]),
{
    assert((c / g) * g <= c && 0 <= c / g) by (nonlinear_arith)
        requires
            1 <= g,
            0 <= c,
    ;
    assert(s + (c / g) * g <= t[p].children@.len());
    lemma_std_from_disjoint(t, th, p, g, s, 0, c / g);
}

} // verus!
