//! The record extractor: turns each region into data records, merges
//! adjacent compatible regions into column-wise records, and recovers
//! orphan siblings that the region finder left out.

use vstd::prelude::*;
use crate::similarity::{all_similar_spec, are_all_siblings_similar,
    get_normalized_edit_distance_sequences, seq_dist_spec, Caches};
use crate::text::str_eq;
use crate::tree_utils::{flatten_at, flatten_subtree, get_children, get_node_by_xpath,
    xpath_lookup};
use crate::types::{DataRecord, DataRegion, MdrError, NodeId, RegionsMapItem, TagNode, TagTree,
    Threshold, rat_le, wf_arena};

verus! {

/// A record as its kind and the nodes it holds: `(is_multi, nodes)`.
pub open spec fn rec_view(r: DataRecord) -> (bool, Seq<NodeId>) {
    match r {
        DataRecord::Single(n) => (false, seq![n]),
        DataRecord::Multi(v) => (true, v@),
    }
}

pub open spec fn records_view(rs: Seq<DataRecord>) -> Seq<(bool, Seq<NodeId>)> {
    rs.map_values(|r: DataRecord| rec_view(r))
}

/// The nodes that one generalized node of length 1 yields: the node's
/// children when they are similar and the node is not a table row,
/// otherwise the node itself.
pub open spec fn find_records1_spec(t: Seq<TagNode>, g: NodeId, th: (int, int)) -> Seq<NodeId> {
    let ch = t[g as int].children@;
    if ch.len() > 0 && all_similar_spec(t, ch, th) && t[g as int].tag_name@ != "tr"@ {
        ch
    } else {
        seq![g]
    }
}

/// Finds the records inside a single-node generalized node.
pub fn find_records1(tree: &TagTree, g: NodeId, t: &Threshold, caches: &mut Caches) -> (r: Vec<
    NodeId,
>)
    requires
        wf_arena(tree.nodes@),
        g < tree.nodes@.len(),
        old(caches).valid(tree.nodes@),
    ensures
        r@ == find_records1_spec(tree.nodes@, g, t@),
        final(caches).valid(tree.nodes@),
{
    let ghost tt = tree.nodes@;
    let children = get_children(tree, g);
    proof {
        assert(tt[g as int].wf_in(tt, g as int));
        assert forall|q: int| 0 <= q < children@.len() implies #[trigger] children@[q]
            < tt.len() by {}
    }
    let is_table_row = str_eq(tree.nodes[g].tag_name.as_str(), "tr");
    let children_are_similar = are_all_siblings_similar(tree, children.as_slice(), t, caches);
    if children.len() > 0 && children_are_similar && !is_table_row {
        children
    } else {
        let mut out: Vec<NodeId> = Vec::new();
        out.push(g);
        proof {
            assert(out@ =~= seq![g]);
        }
        out
    }
}

/// Whether the components all have the same number of children as the
/// first, and each component's children are mutually similar.
pub open spec fn components_ok(t: Seq<TagNode>, comps: Seq<NodeId>, th: (int, int)) -> bool {
    &&& forall|q: int|
        0 <= q < comps.len() ==> t[(#[trigger] comps[q]) as int].children@.len() == t[comps[0] as int].children@.len()
    &&& forall|q: int|
        0 <= q < comps.len() ==> all_similar_spec(t, t[(#[trigger] comps[q]) as int].children@, th)
}

/// The `c`-th child of each component of `comps[q..]` that has one.
pub open spec fn gather_column(t: Seq<TagNode>, comps: Seq<NodeId>, q: int, c: int) -> Seq<NodeId>
    decreases comps.len() - q,
{
    if 0 <= q < comps.len() {
        (if c < t[comps[q] as int].children@.len() {
            seq![t[comps[q] as int].children@[c]]
        } else {
            Seq::empty()
        }) + gather_column(t, comps, q + 1, c)
    } else {
        Seq::empty()
    }
}

/// The column-wise records from `c` on: one Multi record per child
/// position that gathers a non-empty group.
pub open spec fn column_records_from(
    t: Seq<TagNode>,
    comps: Seq<NodeId>,
    c: int,
    count: int,
) -> Seq<(bool, Seq<NodeId>)>
    decreases count - c,
{
    if 0 <= c < count {
        (if gather_column(t, comps, 0, c).len() > 0 {
            seq![(true, gather_column(t, comps, 0, c))]
        } else {
            Seq::empty()
        }) + column_records_from(t, comps, c + 1, count)
    } else {
        Seq::empty()
    }
}

/// The records that a generalized node of several components yields:
/// column-wise Multi records when the components are splittable, otherwise
/// one Multi record of the components themselves.
pub open spec fn find_records_n_spec(t: Seq<TagNode>, comps: Seq<NodeId>, th: (int, int)) -> Seq<
    (bool, Seq<NodeId>),
> {
    if comps.len() == 0 {
        Seq::empty()
    } else if components_ok(t, comps, th) && t[comps[0] as int].children@.len() > 0 {
        column_records_from(t, comps, 0, t[comps[0] as int].children@.len() as int)
    } else {
        seq![(true, comps)]
    }
}

/// Checks [`components_ok`] at run time.
fn check_components(tree: &TagTree, g: &[NodeId], t: &Threshold, caches: &mut Caches) -> (r: bool)
    requires
        wf_arena(tree.nodes@),
        forall|q: int| 0 <= q < g@.len() ==> #[trigger] g@[q] < tree.nodes@.len(),
        g@.len() > 0,
        old(caches).valid(tree.nodes@),
    ensures
        r == components_ok(tree.nodes@, g@, t@),
        final(caches).valid(tree.nodes@),
{
    let ghost tt = tree.nodes@;
    let n = g.len();
    let first_count = tree.nodes[g[0]].children.len();
    let mut q: usize = 0;
    while q < n
        invariant
            wf_arena(tt),
            tree.nodes@ == tt,
            n == g@.len(),
            n > 0,
            forall|p: int| 0 <= p < n ==> #[trigger] g@[p] < tt.len(),
            caches.valid(tt),
            first_count == tt[g@[0] as int].children@.len(),
            q <= n,
            forall|p: int|
                0 <= p < q ==> tt[(#[trigger] g@[p]) as int].children@.len() == first_count,
            forall|p: int|
                0 <= p < q ==> all_similar_spec(tt, tt[(#[trigger] g@[p]) as int].children@, t@),
        decreases n - q,
    {
        let node_children = get_children(tree, g[q]);
        if node_children.len() != first_count {
            return false;
        }
        proof {
            assert(tt[g@[q as int] as int].wf_in(tt, g@[q as int] as int));
            assert forall|p: int| 0 <= p < node_children@.len() implies #[trigger] node_children@[p]
                < tt.len() by {}
        }
        if !are_all_siblings_similar(tree, node_children.as_slice(), t, caches) {
            return false;
        }
        q += 1;
    }
    true
}

/// Gathers the column-wise Multi records across `comps`: one record per
/// child position of the first component, collecting that position's child
/// from every component that has one.
fn collect_column_records(tree: &TagTree, g: &[NodeId]) -> (r: Vec<DataRecord>)
    requires
        wf_arena(tree.nodes@),
        forall|q: int| 0 <= q < g@.len() ==> #[trigger] g@[q] < tree.nodes@.len(),
        g@.len() > 0,
    ensures
        records_view(r@) == column_records_from(
            tree.nodes@,
            g@,
            0,
            tree.nodes@[g@[0] as int].children@.len() as int,
        ),
{
    let ghost tt = tree.nodes@;
    let mut records: Vec<DataRecord> = Vec::new();
    let n = g.len();
    let first_count = tree.nodes[g[0]].children.len();
    {
        let ghost count = first_count as int;
        let mut c: usize = 0;
        while c < first_count
            invariant
                wf_arena(tt),
                tree.nodes@ == tt,
                n == g@.len(),
                n > 0,
                forall|p: int| 0 <= p < n ==> #[trigger] g@[p] < tt.len(),
                count == first_count as int,
                c <= first_count,
                records_view(records@) + column_records_from(tt, g@, c as int, count)
                    == column_records_from(tt, g@, 0, count),
            decreases first_count - c,
        {
            let mut record_group: Vec<NodeId> = Vec::new();
            let mut q: usize = 0;
            while q < n
                invariant
                    wf_arena(tt),
                    tree.nodes@ == tt,
                    n == g@.len(),
                    forall|p: int| 0 <= p < n ==> #[trigger] g@[p] < tt.len(),
                    q <= n,
                    record_group@ == gather_column(tt, g@, 0, c as int).take(
                        gather_column(tt, g@, 0, c as int).len() - gather_column(
                            tt,
                            g@,
                            q as int,
                            c as int,
                        ).len(),
                    ),
                    gather_column(tt, g@, q as int, c as int).len() <= gather_column(
                        tt,
                        g@,
                        0,
                        c as int,
                    ).len(),
                    record_group@ + gather_column(tt, g@, q as int, c as int) == gather_column(
                        tt,
                        g@,
                        0,
                        c as int,
                    ),
                decreases n - q,
            {
                proof {
                    assert(tt[g@[q as int] as int].wf_in(tt, g@[q as int] as int));
                }
                let comp_children = get_children(tree, g[q]);
                let ghost pre_group = record_group@;
                if c < comp_children.len() {
                    record_group.push(comp_children[c]);
                }
                proof {
                    let whole = gather_column(tt, g@, 0, c as int);
                    let before = gather_column(tt, g@, q as int, c as int);
                    let after = gather_column(tt, g@, q + 1, c as int);
                    if c < tt[g@[q as int] as int].children@.len() {
                        assert(before == seq![tt[g@[q as int] as int].children@[c as int]] + after);
                        assert(record_group@ =~= pre_group.push(
                            tt[g@[q as int] as int].children@[c as int],
                        ));
                        assert(record_group@ + after =~= pre_group + before);
                    } else {
                        assert(before == after);
                        assert(record_group@ + after =~= pre_group + before);
                    }
                    assert(pre_group + before =~= whole);
                    assert(record_group@ + after =~= whole);
                    assert(record_group@ =~= whole.take(whole.len() - after.len()));
                }
                q += 1;
            }
            proof {
                assert(gather_column(tt, g@, n as int, c as int) =~= Seq::<NodeId>::empty());
                assert(record_group@ =~= gather_column(tt, g@, 0, c as int));
            }
            if record_group.len() > 0 {
                let ghost pre = records@;
                records.push(DataRecord::Multi(record_group));
                proof {
                    assert(records_view(records@) =~= records_view(pre) + seq![
                        (true, gather_column(tt, g@, 0, c as int)),
                    ]);
                    assert((records_view(pre) + seq![(true, gather_column(tt, g@, 0, c as int))])
                        + column_records_from(tt, g@, c + 1, count) =~= records_view(pre) + (seq![
                        (true, gather_column(tt, g@, 0, c as int)),
                    ] + column_records_from(tt, g@, c + 1, count)));
                }
            } else {
                proof {
                    assert(records_view(records@) + column_records_from(tt, g@, c + 1, count)
                        =~= records_view(records@) + (Seq::empty() + column_records_from(
                        tt,
                        g@,
                        c + 1,
                        count,
                    )));
                }
            }
            c += 1;
        }
        proof {
            assert(column_records_from(tt, g@, count, count) =~= Seq::<(bool, Seq<NodeId>)>::empty());
            assert(records_view(records@) + Seq::empty() =~= records_view(records@));
        }
    }
    records
}

/// Finds the records inside a generalized node of several components.
pub fn find_records_n(tree: &TagTree, g: &[NodeId], t: &Threshold, caches: &mut Caches) -> (r: Vec<
    DataRecord,
>)
    requires
        wf_arena(tree.nodes@),
        forall|q: int| 0 <= q < g@.len() ==> #[trigger] g@[q] < tree.nodes@.len(),
        old(caches).valid(tree.nodes@),
    ensures
        records_view(r@) == find_records_n_spec(tree.nodes@, g@, t@),
        final(caches).valid(tree.nodes@),
{
    let ghost tt = tree.nodes@;
    let ghost th = t@;
    let n = g.len();
    if n == 0 {
        let records: Vec<DataRecord> = Vec::new();
        proof {
            assert(records_view(records@) =~= find_records_n_spec(tt, g@, th));
        }
        return records;
    }
    let splittable = check_components(tree, g, t, caches);
    let first_count = tree.nodes[g[0]].children.len();
    if splittable && first_count > 0 {
        collect_column_records(tree, g)
    } else {
        let mut records: Vec<DataRecord> = Vec::new();
        let mut comps: Vec<NodeId> = Vec::new();
        let mut q: usize = 0;
        while q < n
            invariant
                n == g@.len(),
                q <= n,
                comps@ == g@.take(q as int),
            decreases n - q,
        {
            comps.push(g[q]);
            proof {
                assert(comps@ =~= g@.take(q + 1));
            }
            q += 1;
        }
        proof {
            assert(g@.take(n as int) =~= g@);
        }
        records.push(DataRecord::Multi(comps));
        proof {
            assert(records_view(records@) =~= seq![(true, g@)]);
        }
        records
    }
}

/// Whether splitting the components column-wise would cut records across
/// component boundaries: several components, each with the same positive
/// number of mutually similar children.
pub open spec fn wpc_spec(t: Seq<TagNode>, comps: Seq<NodeId>, th: (int, int)) -> bool {
    comps.len() > 1 && t[comps[0] as int].children@.len() > 0 && components_ok(t, comps, th)
}

/// Checks whether merging would produce non-contiguous (column-wise)
/// records out of these components.
fn would_produce_non_contiguous(
    tree: &TagTree,
    g: &[NodeId],
    t: &Threshold,
    caches: &mut Caches,
) -> (r: bool)
    requires
        wf_arena(tree.nodes@),
        forall|q: int| 0 <= q < g@.len() ==> #[trigger] g@[q] < tree.nodes@.len(),
        old(caches).valid(tree.nodes@),
    ensures
        r == wpc_spec(tree.nodes@, g@, t@),
        final(caches).valid(tree.nodes@),
{
    if g.len() <= 1 {
        return false;
    }
    let first_count = tree.nodes[g[0]].children.len();
    if first_count == 0 {
        return false;
    }
    check_components(tree, g, t, caches)
}

/// Inserts `r` into the sorted regions `s`, after every region whose start
/// index is at or before its own.
pub open spec fn insert_sorted(r: DataRegion, s: Seq<DataRegion>) -> Seq<DataRegion>
    decreases s.len(),
{
    if s.len() == 0 {
        seq![r]
    } else if s[0].1 <= r.1 {
        seq![s[0]] + insert_sorted(r, s.drop_first())
    } else {
        seq![r] + s
    }
}

/// The regions sorted by start index, stably: regions with equal starts
/// keep their order.
pub open spec fn sort_regions_spec(s: Seq<DataRegion>) -> Seq<DataRegion>
    decreases s.len(),
{
    if s.len() == 0 {
        Seq::empty()
    } else {
        insert_sorted(s.last(), sort_regions_spec(s.drop_last()))
    }
}

proof fn lemma_insert_sorted_at(r: DataRegion, s: Seq<DataRegion>, idx: int)
    requires
        0 <= idx <= s.len(),
        forall|q: int| 0 <= q < idx ==> (#[trigger] s[q]).1 <= r.1,
        idx < s.len() ==> s[idx].1 > r.1,
    ensures
        insert_sorted(r, s) == s.take(idx) + seq![r] + s.skip(idx),
    decreases s.len(),
{
    if s.len() == 0 {
        assert(insert_sorted(r, s) =~= s.take(0) + seq![r] + s.skip(0));
    } else if idx == 0 {
        assert(insert_sorted(r, s) =~= s.take(0) + seq![r] + s.skip(0));
    } else {
        assert(s[0].1 <= r.1);
        let tail = s.drop_first();
        assert forall|q: int| 0 <= q < idx - 1 implies (#[trigger] tail[q]).1 <= r.1 by {
            assert(tail[q] == s[q + 1]);
        }
        assert(idx - 1 < tail.len() ==> tail[idx - 1].1 > r.1);
        lemma_insert_sorted_at(r, tail, idx - 1);
        assert(insert_sorted(r, s) =~= s.take(idx) + seq![r] + s.skip(idx)) by {
            assert(insert_sorted(r, s) == seq![s[0]] + insert_sorted(r, tail));
            assert(insert_sorted(r, tail) == tail.take(idx - 1) + seq![r] + tail.skip(idx - 1));
        }
    }
}

/// Sorts regions by start index, stably.
fn sort_regions(regions: &Vec<DataRegion>) -> (r: Vec<DataRegion>)
    ensures
        r@ == sort_regions_spec(regions@),
{
    let mut out: Vec<DataRegion> = Vec::new();
    let n = regions.len();
    let mut i: usize = 0;
    while i < n
        invariant
            n == regions@.len(),
            i <= n,
            out@ == sort_regions_spec(regions@.take(i as int)),
            out@.len() == i,
            forall|p: int, q: int| 0 <= p <= q < i ==> (#[trigger] out@[p]).1 <= (#[trigger] out@[q]).1,
        decreases n - i,
    {
        let r = regions[i];
        // Find the first position whose start index exceeds the new one.
        let mut idx: usize = 0;
        while idx < out.len() && out[idx].1 <= r.1
            invariant
                idx <= out@.len(),
                forall|q: int| 0 <= q < idx ==> (#[trigger] out@[q]).1 <= r.1,
            decreases out@.len() - idx,
        {
            idx += 1;
        }
        let ghost pre = out@;
        out.insert(idx, r);
        proof {
            lemma_insert_sorted_at(r, pre, idx as int);
            assert(out@ =~= pre.take(idx as int) + seq![r] + pre.skip(idx as int));
            assert(regions@.take(i as int).push(r) =~= regions@.take(i + 1));
            assert(regions@.take(i + 1).drop_last() =~= regions@.take(i as int));
            assert(sort_regions_spec(regions@.take(i + 1)) == insert_sorted(
                r,
                sort_regions_spec(regions@.take(i as int)),
            ));
            assert forall|p: int, q: int| 0 <= p <= q < i + 1 implies (#[trigger] out@[p]).1
                <= (#[trigger] out@[q]).1 by {
                if p < idx {
                    assert(out@[p] == pre[p]);
                } else if p > idx {
                    assert(out@[p] == pre[p - 1]);
                }
                if q < idx {
                    assert(out@[q] == pre[q]);
                } else if q > idx {
                    assert(out@[q] == pre[q - 1]);
                }
                if idx < pre.len() {
                    assert(pre[idx as int].1 > r.1);
                }
            }
        }
        i += 1;
    }
    proof {
        assert(regions@.take(n as int) =~= regions@);
    }
    out
}

/// Identifies records from a regions map alone.  Without the tree the
/// nodes behind the map cannot be reached, so no record can be produced;
/// [`identify_all_data_records_with_tree`] is the complete operation.
pub fn identify_all_data_records(regions: &[RegionsMapItem], _t: &Threshold) -> (r: Vec<DataRecord>)
    ensures
        r@.len() == 0,
{
    Vec::new()
}

/// The indexing assumptions extraction makes of one region under a parent
/// with `n` children.
pub open spec fn region_bounds_ok(r: DataRegion, n: int) -> bool {
    1 <= r.0 && r.2 >= 2 * (r.0 as int) && r.1 + r.2 <= n
}

/// Whether every region of every item whose parent resolves lies inside
/// that parent's children.
pub open spec fn items_ok(t: Seq<TagNode>, items: Seq<RegionsMapItem>) -> bool {
    forall|i: int|
        0 <= i < items.len() ==> match xpath_lookup(t, 0, (#[trigger] items[i]).parent_xpath@) {
            None => true,
            Some(p) => forall|q: int|
                0 <= q < items[i].regions@.len() ==> region_bounds_ok(
                    #[trigger] items[i].regions@[q],
                    t[p].children@.len() as int,
                ),
        }
}

proof fn lemma_insert_sorted_elems(r: DataRegion, s: Seq<DataRegion>)
    ensures
        insert_sorted(r, s).len() == s.len() + 1,
        forall|q: int|
            0 <= q < insert_sorted(r, s).len() ==> (#[trigger] insert_sorted(r, s)[q] == r
                || exists|p: int| 0 <= p < s.len() && insert_sorted(r, s)[q] == s[p]),
    decreases s.len(),
{
    if s.len() != 0 && s[0].1 <= r.1 {
        let tail = s.drop_first();
        lemma_insert_sorted_elems(r, tail);
        assert forall|q: int| 0 <= q < insert_sorted(r, s).len() implies (
        #[trigger] insert_sorted(r, s)[q] == r || exists|p: int|
            0 <= p < s.len() && insert_sorted(r, s)[q] == s[p]) by {
            if q == 0 {
                assert(insert_sorted(r, s)[0] == s[0]);
            } else {
                let e = insert_sorted(r, s)[q];
                assert(e == insert_sorted(r, tail)[q - 1]);
                if e != r {
                    let p = choose|p: int| 0 <= p < tail.len() && insert_sorted(r, tail)[q - 1]
                        == tail[p];
                    assert(e == s[p + 1]);
                }
            }
        }
    }
}

/// Sorting keeps exactly the input's regions.
proof fn lemma_sort_regions_elems(s: Seq<DataRegion>)
    ensures
        sort_regions_spec(s).len() == s.len(),
        forall|q: int|
            0 <= q < sort_regions_spec(s).len() ==> exists|p: int|
                0 <= p < s.len() && #[trigger] sort_regions_spec(s)[q] == s[p],
    decreases s.len(),
{
    if s.len() != 0 {
        let front = s.drop_last();
        lemma_sort_regions_elems(front);
        lemma_insert_sorted_elems(s.last(), sort_regions_spec(front));
        assert forall|q: int| 0 <= q < sort_regions_spec(s).len() implies exists|p: int|
            0 <= p < s.len() && #[trigger] sort_regions_spec(s)[q] == s[p] by {
            let e = sort_regions_spec(s)[q];
            if e == s.last() {
                assert(sort_regions_spec(s)[q] == s[s.len() - 1]);
            } else {
                let p0 = choose|p0: int|
                    0 <= p0 < sort_regions_spec(front).len() && e == sort_regions_spec(front)[p0];
                let p = choose|p: int| 0 <= p < front.len() && sort_regions_spec(front)[p0]
                    == front[p];
                assert(sort_regions_spec(s)[q] == s[p]);
            }
        }
    }
}

/// Checks the indexing assumptions of every item at run time.
fn check_items(tree: &TagTree, regions: &[RegionsMapItem]) -> (r: bool)
    requires
        wf_arena(tree.nodes@),
    ensures
        r == items_ok(tree.nodes@, regions@),
{
    let ghost tt = tree.nodes@;
    let n = regions.len();
    let mut i: usize = 0;
    while i < n
        invariant
            wf_arena(tt),
            tree.nodes@ == tt,
            n == regions@.len(),
            i <= n,
            forall|p: int|
                0 <= p < i ==> match xpath_lookup(tt, 0, (#[trigger] regions@[p]).parent_xpath@) {
                    None => true,
                    Some(pp) => forall|q: int|
                        0 <= q < regions@[p].regions@.len() ==> region_bounds_ok(
                            #[trigger] regions@[p].regions@[q],
                            tt[pp].children@.len() as int,
                        ),
                },
        decreases n - i,
    {
        let item = &regions[i];
        if let Some(parent) = get_node_by_xpath(tree, 0, item.parent_xpath.as_str()) {
            let cn = tree.nodes[parent].children.len();
            let m = item.regions.len();
            let mut q: usize = 0;
            while q < m
                invariant
                    wf_arena(tt),
                    tree.nodes@ == tt,
                    i < regions@.len(),
                    item == &regions@[i as int],
                    m == item.regions@.len(),
                    parent < tt.len(),
                    xpath_lookup(tt, 0, regions@[i as int].parent_xpath@) == Some(parent as int),
                    cn == tt[parent as int].children@.len(),
                    q <= m,
                    forall|p: int|
                        0 <= p < q ==> region_bounds_ok(
                            #[trigger] item.regions@[p],
                            cn as int,
                        ),
                decreases m - q,
            {
                let (g, s, c) = item.regions[q];
                if g < 1 || c < g || c - g < g || s > cn || c > cn - s {
                    proof {
                        assert(!region_bounds_ok(item.regions@[q as int], cn as int));
                        assert(xpath_lookup(tt, 0, regions@[i as int].parent_xpath@) == Some(
                            parent as int,
                        ));
                        assert(!items_ok(tt, regions@));
                    }
                    return false;
                }
                q += 1;
            }
        }
        i += 1;
    }
    true
}

/// The processed-region keys as a set of `(parent XPath, start index)`.
pub open spec fn keys_view(v: Seq<(String, usize)>) -> Set<(Seq<char>, int)> {
    Set::new(
        |key: (Seq<char>, int)|
            exists|q: int|
                0 <= q < v.len() && (#[trigger] v[q]).0@ == key.0 && v[q].1 as int == key.1,
    )
}

/// Whether `(xp, s)` was already processed.
fn keys_contain(processed: &Vec<(String, usize)>, xp: &String, s: usize) -> (r: bool)
    ensures
        r == keys_view(processed@).contains((xp@, s as int)),
{
    let n = processed.len();
    let mut q: usize = 0;
    while q < n
        invariant
            n == processed@.len(),
            q <= n,
            forall|p: int|
                0 <= p < q ==> !((#[trigger] processed@[p]).0@ == xp@ && processed@[p].1 == s),
        decreases n - q,
    {
        if processed[q].1 == s && str_eq(processed[q].0.as_str(), xp.as_str()) {
            proof {
                assert(keys_view(processed@).contains((xp@, s as int)));
            }
            return true;
        }
        q += 1;
    }
    proof {
        assert(!keys_view(processed@).contains((xp@, s as int)));
    }
    false
}

/// Records `(xp, s)` as processed.
fn keys_insert(processed: &mut Vec<(String, usize)>, xp: &String, s: usize)
    ensures
        keys_view(final(processed)@) == keys_view(old(processed)@).insert((xp@, s as int)),
{
    let ghost pre = processed@;
    processed.push((xp.clone(), s));
    proof {
        assert forall|key: (Seq<char>, int)| #[trigger] keys_view(processed@).contains(key)
            <==> keys_view(pre).insert((xp@, s as int)).contains(key) by {
            if keys_view(processed@).contains(key) {
                let q = choose|q: int| 0 <= q < processed@.len() && (#[trigger] processed@[q]).0@
                    == key.0 && processed@[q].1 as int == key.1;
                if q < pre.len() {
                    assert(pre[q] == processed@[q]);
                    assert(keys_view(pre).contains(key));
                }
            }
            if keys_view(pre).insert((xp@, s as int)).contains(key) {
                if keys_view(pre).contains(key) {
                    let q = choose|q: int| 0 <= q < pre.len() && (#[trigger] pre[q]).0@ == key.0
                        && pre[q].1 as int == key.1;
                    assert(processed@[q] == pre[q]);
                    assert(keys_view(processed@).contains(key));
                } else {
                    assert(processed@[pre.len() as int].0@ == xp@);
                    assert(keys_view(processed@).contains(key));
                }
            }
        }
        assert(keys_view(processed@) =~= keys_view(pre).insert((xp@, s as int)));
    }
}

pub open spec fn singles_view(ids: Seq<NodeId>) -> Seq<(bool, Seq<NodeId>)> {
    ids.map_values(|id: NodeId| (false, seq![id]))
}

/// The records of the standard extraction for generalized nodes `i..` of a
/// region `(g, s, _)` with `ngns` generalized nodes.
pub open spec fn std_records_from(
    t: Seq<TagNode>,
    th: (int, int),
    ch: Seq<NodeId>,
    g: int,
    s: int,
    i: int,
    ngns: int,
) -> Seq<(bool, Seq<NodeId>)>
    decreases ngns - i,
{
    if 0 <= i < ngns {
        let comps = ch.subrange(s + i * g, s + i * g + g);
        (if g == 1 {
            singles_view(find_records1_spec(t, ch[s + i * g] as NodeId, th))
        } else {
            find_records_n_spec(t, comps, th)
        }) + std_records_from(t, th, ch, g, s, i + 1, ngns)
    } else {
        Seq::empty()
    }
}

/// The column-wise records across the merged components.
pub open spec fn merged_records(t: Seq<TagNode>, comps: Seq<NodeId>) -> Seq<(bool, Seq<NodeId>)> {
    column_records_from(t, comps, 0, t[comps[0] as int].children@.len() as int)
}

/// One parent's regions, processed in sorted order from `ridx` on: a region
/// already processed is skipped; a region adjacent and compatible with the
/// next is merged with it into column-wise records; any other region gets
/// the standard extraction.
pub open spec fn extract_regions_fold(
    t: Seq<TagNode>,
    th: (int, int),
    p: int,
    xp: Seq<char>,
    sorted: Seq<DataRegion>,
    ridx: int,
    done: Set<(Seq<char>, int)>,
    acc: Seq<(bool, Seq<NodeId>)>,
) -> (Seq<(bool, Seq<NodeId>)>, Set<(Seq<char>, int)>)
    decreases sorted.len() - ridx,
{
    if !(0 <= ridx < sorted.len()) {
        (acc, done)
    } else {
        let g = sorted[ridx].0 as int;
        let s = sorted[ridx].1 as int;
        let c = sorted[ridx].2 as int;
        let key = (xp, s);
        if done.contains(key) {
            extract_regions_fold(t, th, p, xp, sorted, ridx + 1, done, acc)
        } else {
            let ch = t[p].children@;
            let merged = g > 1 && ridx + 1 < sorted.len() && s + c == sorted[ridx + 1].1 as int && g
                == sorted[ridx + 1].0 as int && rat_le(
                seq_dist_spec(t, ch.subrange(s, s + g), ch.subrange(s + c, s + c + g)),
                th,
            ) && wpc_spec(t, ch.subrange(s, s + g), th) && wpc_spec(
                t,
                ch.subrange(s + c, s + c + g),
                th,
            );
            if merged {
                let comps = ch.subrange(s, s + g) + ch.subrange(s + c, s + c + g);
                let done2 = done.insert((xp, s + c)).insert(key);
                extract_regions_fold(
                    t,
                    th,
                    p,
                    xp,
                    sorted,
                    ridx + 1,
                    done2,
                    acc + merged_records(t, comps),
                )
            } else {
                extract_regions_fold(
                    t,
                    th,
                    p,
                    xp,
                    sorted,
                    ridx + 1,
                    done.insert(key),
                    acc + std_records_from(t, th, ch, g, s, 0, c / g),
                )
            }
        }
    }
}

/// All items, in order, threading the processed keys.
pub open spec fn extract_items_fold(
    t: Seq<TagNode>,
    th: (int, int),
    items: Seq<RegionsMapItem>,
    i: int,
    done: Set<(Seq<char>, int)>,
    acc: Seq<(bool, Seq<NodeId>)>,
) -> (Seq<(bool, Seq<NodeId>)>, Set<(Seq<char>, int)>)
    decreases items.len() - i,
{
    if !(0 <= i < items.len()) {
        (acc, done)
    } else {
        match xpath_lookup(t, 0, items[i].parent_xpath@) {
            None => extract_items_fold(t, th, items, i + 1, done, acc),
            Some(p) => {
                let sorted = sort_regions_spec(items[i].regions@);
                let pair = extract_regions_fold(
                    t,
                    th,
                    p,
                    items[i].parent_xpath@,
                    sorted,
                    0,
                    done,
                    acc,
                );
                extract_items_fold(t, th, items, i + 1, pair.1, pair.0)
            },
        }
    }
}

/// The records extracted from the whole regions map.
pub open spec fn extract_all_spec(
    t: Seq<TagNode>,
    th: (int, int),
    items: Seq<RegionsMapItem>,
) -> Seq<(bool, Seq<NodeId>)> {
    extract_items_fold(t, th, items, 0, Set::empty(), Seq::empty()).0
}

/// Turns node ids into Single records.
fn collect_singles(ids: &Vec<NodeId>) -> (r: Vec<DataRecord>)
    ensures
        records_view(r@) == singles_view(ids@),
{
    let mut out: Vec<DataRecord> = Vec::new();
    let n = ids.len();
    let mut j: usize = 0;
    while j < n
        invariant
            n == ids@.len(),
            j <= n,
            records_view(out@) == singles_view(ids@.take(j as int)),
        decreases n - j,
    {
        let ghost pre = out@;
        out.push(DataRecord::Single(ids[j]));
        proof {
            assert(records_view(out@) =~= records_view(pre) + seq![(false, seq![ids@[j as int]])]);
            assert(singles_view(ids@.take(j + 1)) =~= singles_view(ids@.take(j as int)) + seq![
                (false, seq![ids@[j as int]]),
            ]);
        }
        j += 1;
    }
    proof {
        assert(ids@.take(n as int) =~= ids@);
    }
    out
}

/// Copies the node ids of `a` followed by those of `b` into one vector.
fn concat_ids(a: &[NodeId], b: &[NodeId]) -> (r: Vec<NodeId>)
    ensures
        r@ == a@ + b@,
{
    let mut out: Vec<NodeId> = Vec::new();
    let mut j: usize = 0;
    while j < a.len()
        invariant
            j <= a@.len(),
            out@ == a@.take(j as int),
        decreases a@.len() - j,
    {
        out.push(a[j]);
        proof {
            assert(out@ =~= a@.take(j + 1));
        }
        j += 1;
    }
    proof {
        assert(a@.take(a@.len() as int) =~= a@);
    }
    let mut j2: usize = 0;
    while j2 < b.len()
        invariant
            j2 <= b@.len(),
            out@ == a@ + b@.take(j2 as int),
        decreases b@.len() - j2,
    {
        out.push(b[j2]);
        proof {
            assert(out@ =~= a@ + b@.take(j2 + 1));
        }
        j2 += 1;
    }
    proof {
        assert(b@.take(b@.len() as int) =~= b@);
    }
    out
}

/// Identifies all data records for a regions map against the tree.  A
/// region already consumed as the second half of a merge is skipped; an
/// adjacent compatible pair merges into column-wise records; every other
/// region yields records generalized node by generalized node.  Fails with
/// `InternalError` when some region does not fit inside its parent's
/// children.
pub fn identify_all_data_records_with_tree(
    regions: &[RegionsMapItem],
    t: &Threshold,
    tree: &TagTree,
    caches: &mut Caches,
) -> (r: Result<Vec<DataRecord>, MdrError>)
    requires
        wf_arena(tree.nodes@),
        old(caches).valid(tree.nodes@),
    ensures
        final(caches).valid(tree.nodes@),
        match r {
            Ok(recs) => items_ok(tree.nodes@, regions@) && records_view(recs@) == extract_all_spec(
                tree.nodes@,
                t@,
                regions@,
            ),
            Err(e) => e == MdrError::InternalError && !items_ok(tree.nodes@, regions@),
        },
{
    let ghost tt = tree.nodes@;
    let ghost th = t@;
    if !check_items(tree, regions) {
        return Err(MdrError::InternalError);
    }
    let ghost goal = extract_items_fold(tt, th, regions@, 0, Set::empty(), Seq::empty());
    let mut all_records: Vec<DataRecord> = Vec::new();
    let mut processed: Vec<(String, usize)> = Vec::new();
    proof {
        assert(keys_view(processed@) =~= Set::<(Seq<char>, int)>::empty());
        assert(records_view(all_records@) =~= Seq::<(bool, Seq<NodeId>)>::empty());
    }
    let n = regions.len();
    let mut i: usize = 0;
    while i < n
        invariant
            wf_arena(tt),
            tree.nodes@ == tt,
            th == t@,
            caches.valid(tt),
            items_ok(tt, regions@),
            n == regions@.len(),
            i <= n,
            extract_items_fold(
                tt,
                th,
                regions@,
                i as int,
                keys_view(processed@),
                records_view(all_records@),
            ) == goal,
        decreases n - i,
    {
        let item = &regions[i];
        let ghost done_i = keys_view(processed@);
        let ghost acc_i = records_view(all_records@);
        match get_node_by_xpath(tree, 0, item.parent_xpath.as_str()) {
            None => {
                proof {
                    assert(extract_items_fold(tt, th, regions@, i as int, done_i, acc_i)
                        == extract_items_fold(tt, th, regions@, i + 1, done_i, acc_i));
                }
            },
            Some(parent_node) => {
                let children = get_children(tree, parent_node);
                let n_ch = children.len();
                let sorted_regions = sort_regions(&item.regions);
                let ghost sorted = sorted_regions@;
                let ghost xps = item.parent_xpath@;
                proof {
                    lemma_sort_regions_elems(item.regions@);
                    assert forall|q: int| 0 <= q < sorted.len() implies region_bounds_ok(
                        #[trigger] sorted[q],
                        n_ch as int,
                    ) by {
                        let p = choose|p: int| 0 <= p < item.regions@.len() && sorted[q]
                            == item.regions@[p];
                        assert(region_bounds_ok(item.regions@[p], tt[parent_node as int].children@.len() as int));
                    }
                    assert(tt[parent_node as int].wf_in(tt, parent_node as int));
                }
                let ghost item_goal = extract_regions_fold(
                    tt,
                    th,
                    parent_node as int,
                    xps,
                    sorted,
                    0,
                    done_i,
                    acc_i,
                );
                let m = sorted_regions.len();
                let mut ridx: usize = 0;
                while ridx < m
                    invariant
                        wf_arena(tt),
                        tree.nodes@ == tt,
                        th == t@,
                        caches.valid(tt),
                        m == sorted.len(),
                        ridx <= m,
                        sorted == sorted_regions@,
                        parent_node < tt.len(),
                        children@ == tt[parent_node as int].children@,
                        n_ch == children@.len(),
                        forall|q: int|
                            0 <= q < sorted.len() ==> region_bounds_ok(
                                #[trigger] sorted[q],
                                n_ch as int,
                            ),
                        forall|q: int| 0 <= q < children@.len() ==> #[trigger] children@[q]
                            < tt.len(),
                        item == &regions@[i as int],
                        xps == item.parent_xpath@,
                        extract_regions_fold(
                            tt,
                            th,
                            parent_node as int,
                            xps,
                            sorted,
                            ridx as int,
                            keys_view(processed@),
                            records_view(all_records@),
                        ) == item_goal,
                    decreases m - ridx,
                {
                    let ghost done_r = keys_view(processed@);
                    let ghost acc_r = records_view(all_records@);
                    let (gn_length, start_idx, node_count) = sorted_regions[ridx];
                    let ghost gi = gn_length as int;
                    let ghost si = start_idx as int;
                    let ghost ci = node_count as int;
                    let ghost ch = children@;
                    proof {
                        assert(region_bounds_ok(sorted[ridx as int], n_ch as int));
                    }
                    let already = keys_contain(&processed, &item.parent_xpath, start_idx);
                    if already {
                        proof {
                            assert(extract_regions_fold(tt, th, parent_node as int, xps, sorted,
                                ridx as int, done_r, acc_r) == extract_regions_fold(tt, th,
                                parent_node as int, xps, sorted, ridx + 1, done_r, acc_r));
                        }
                    } else {
                        // Adjacent-region merge test.
                        let mut merged = false;
                        if gn_length > 1 && ridx + 1 < m {
                            let (next_g, next_s, _next_c) = sorted_regions[ridx + 1];
                            if start_idx + node_count == next_s && gn_length == next_g {
                                proof {
                                    assert(region_bounds_ok(sorted[ridx + 1], n_ch as int));
                                    assert(si + gi <= n_ch && si + ci + gi <= n_ch);
                                }
                                let current_gns = &children[start_idx..start_idx + gn_length];
                                let next_gns = &children[next_s..next_s + gn_length];
                                proof {
                                    assert forall|q: int| 0 <= q < current_gns@.len() implies
                                        #[trigger] current_gns@[q] < tt.len() by {
                                        assert(current_gns@[q] == ch[si + q]);
                                    }
                                    assert forall|q: int| 0 <= q < next_gns@.len() implies
                                        #[trigger] next_gns@[q] < tt.len() by {
                                        assert(next_gns@[q] == ch[si + ci + q]);
                                    }
                                }
                                let d = get_normalized_edit_distance_sequences(
                                    tree,
                                    current_gns,
                                    next_gns,
                                    &mut caches.flat,
                                );
                                if d.le_threshold(t) {
                                    let w1 = would_produce_non_contiguous(
                                        tree,
                                        current_gns,
                                        t,
                                        caches,
                                    );
                                    if w1 {
                                        let w2 = would_produce_non_contiguous(
                                            tree,
                                            next_gns,
                                            t,
                                            caches,
                                        );
                                        if w2 {
                                            merged = true;
                                            let components = concat_ids(current_gns, next_gns);
                                            proof {
                                                assert(components@ == ch.subrange(si, si + gi)
                                                    + ch.subrange(si + ci, si + ci + gi));
                                                assert(components@.len() > 0);
                                                assert forall|q: int|
                                                    0 <= q < components@.len() implies
                                                    #[trigger] components@[q] < tt.len() by {}
                                                assert(components@[0] == ch[si]);
                                            }
                                            let mut mrecs = collect_column_records(
                                                tree,
                                                components.as_slice(),
                                            );
                                            let ghost pre_all = all_records@;
                                            all_records.append(&mut mrecs);
                                            proof {
                                                assert(records_view(all_records@) =~= records_view(
                                                    pre_all) + merged_records(tt, components@));
                                            }
                                            keys_insert(&mut processed, &item.parent_xpath, next_s);
                                            keys_insert(
                                                &mut processed,
                                                &item.parent_xpath,
                                                start_idx,
                                            );
                                            proof {
                                                assert(keys_view(processed@) == done_r.insert(
                                                    (xps, si + ci),
                                                ).insert((xps, si)));
                                                assert(extract_regions_fold(tt, th,
                                                    parent_node as int, xps, sorted, ridx as int,
                                                    done_r, acc_r) == extract_regions_fold(tt, th,
                                                    parent_node as int, xps, sorted, ridx + 1,
                                                    keys_view(processed@), records_view(
                                                    all_records@)));
                                            }
                                        }
                                    }
                                }
                            }
                        }
                        if !merged {
                            // Standard extraction, generalized node by
                            // generalized node.
                            let num_gns = node_count / gn_length;
                            let ghost acc0 = records_view(all_records@);
                            proof {
                                assert(gi * (ci / gi) <= ci) by (nonlinear_arith)
                                    requires
                                        gi >= 1,
                                        ci >= 0,
                                ;
                            }
                            let mut gn_i: usize = 0;
                            while gn_i < num_gns
                                invariant
                                    wf_arena(tt),
                                    tree.nodes@ == tt,
                                    th == t@,
                                    caches.valid(tt),
                                    ch == children@,
                                    children@ == tt[parent_node as int].children@,
                                    n_ch == children@.len(),
                                    forall|q: int|
                                        0 <= q < children@.len() ==> #[trigger] children@[q]
                                            < tt.len(),
                                    gi == gn_length as int,
                                    si == start_idx as int,
                                    ci == node_count as int,
                                    1 <= gi,
                                    si + ci <= n_ch,
                                    num_gns == ci / gi,
                                    gi * (ci / gi) <= ci,
                                    gn_i <= num_gns,
                                    records_view(all_records@) + std_records_from(
                                        tt,
                                        th,
                                        ch,
                                        gi,
                                        si,
                                        gn_i as int,
                                        num_gns as int,
                                    ) == acc0 + std_records_from(
                                        tt,
                                        th,
                                        ch,
                                        gi,
                                        si,
                                        0,
                                        num_gns as int,
                                    ),
                                decreases num_gns - gn_i,
                            {
                                proof {
                                    assert(gi * (gn_i + 1) <= gi * (ci / gi)) by (nonlinear_arith)
                                        requires
                                            gi >= 1,
                                            gn_i + 1 <= ci / gi,
                                    ;
                                    assert(gi * (gn_i as int) + gi == gi * (gn_i + 1))
                                        by (nonlinear_arith);
                                    assert(si + gi * (gn_i as int) + gi <= si + ci);
                                    assert(gi * (gn_i as int) == (gn_i as int) * gi)
                                        by (nonlinear_arith);
                                }
                                let gn_start = start_idx + gn_i * gn_length;
                                let comps_slice = &children[gn_start..gn_start + gn_length];
                                proof {
                                    assert(comps_slice@ == ch.subrange(
                                        si + (gn_i as int) * gi,
                                        si + (gn_i as int) * gi + gi,
                                    ));
                                    assert forall|q: int| 0 <= q < comps_slice@.len() implies
                                        #[trigger] comps_slice@[q] < tt.len() by {
                                        assert(comps_slice@[q] == ch[si + (gn_i as int) * gi + q]);
                                    }
                                }
                                let mut recs: Vec<DataRecord> = if gn_length == 1 {
                                    let f1 = find_records1(tree, comps_slice[0], t, caches);
                                    proof {
                                        assert(comps_slice@[0] == ch[si + (gn_i as int) * gi]);
                                    }
                                    collect_singles(&f1)
                                } else {
                                    find_records_n(tree, comps_slice, t, caches)
                                };
                                let ghost pre_all = all_records@;
                                all_records.append(&mut recs);
                                proof {
                                    let head = if gi == 1 {
                                        singles_view(
                                            find_records1_spec(
                                                tt,
                                                ch[si + (gn_i as int) * gi] as NodeId,
                                                th,
                                            ),
                                        )
                                    } else {
                                        find_records_n_spec(
                                            tt,
                                            ch.subrange(
                                                si + (gn_i as int) * gi,
                                                si + (gn_i as int) * gi + gi,
                                            ),
                                            th,
                                        )
                                    };
                                    assert(std_records_from(tt, th, ch, gi, si, gn_i as int,
                                        num_gns as int) == head + std_records_from(tt, th, ch, gi,
                                        si, gn_i + 1, num_gns as int));
                                    assert(records_view(all_records@) =~= records_view(pre_all)
                                        + head);
                                    assert((records_view(pre_all) + head) + std_records_from(tt,
                                        th, ch, gi, si, gn_i + 1, num_gns as int)
                                        =~= records_view(pre_all) + (head + std_records_from(tt,
                                        th, ch, gi, si, gn_i + 1, num_gns as int)));
                                }
                                gn_i += 1;
                            }
                            proof {
                                assert(std_records_from(tt, th, ch, gi, si, num_gns as int,
                                    num_gns as int) =~= Seq::<(bool, Seq<NodeId>)>::empty());
                                assert(records_view(all_records@) + Seq::empty() =~= records_view(
                                    all_records@));
                                assert(records_view(all_records@) == acc0 + std_records_from(tt,
                                    th, ch, gi, si, 0, num_gns as int));
                            }
                            keys_insert(&mut processed, &item.parent_xpath, start_idx);
                            proof {
                                assert(keys_view(processed@) == done_r.insert((xps, si)));
                                assert(extract_regions_fold(tt, th, parent_node as int, xps,
                                    sorted, ridx as int, done_r, acc_r) == extract_regions_fold(
                                    tt, th, parent_node as int, xps, sorted, ridx + 1, keys_view(
                                    processed@), records_view(all_records@)));
                            }
                        }
                    }
                    ridx += 1;
                }
                proof {
                    assert(extract_regions_fold(tt, th, parent_node as int, xps, sorted, m as int,
                        keys_view(processed@), records_view(all_records@)) == (records_view(
                        all_records@), keys_view(processed@)));
                    assert(item_goal == (records_view(all_records@), keys_view(processed@)));
                    assert(extract_items_fold(tt, th, regions@, i as int, done_i, acc_i)
                        == extract_items_fold(tt, th, regions@, i + 1, keys_view(processed@),
                        records_view(all_records@)));
                }
            },
        }
        i += 1;
    }
    proof {
        assert(extract_items_fold(tt, th, regions@, n as int, keys_view(processed@), records_view(
            all_records@)) == (records_view(all_records@), keys_view(processed@)));
        assert(records_view(all_records@) == extract_all_spec(tt, th, regions@));
    }
    Ok(all_records)
}

/// Whether child position `idx` is covered by any of the regions.
pub open spec fn covered_any(regions: Seq<DataRegion>, idx: int) -> bool {
    exists|q: int|
        0 <= q < regions.len() && (#[trigger] regions[q]).1 <= idx < regions[q].1 + regions[q].2
}

/// Whether candidate `x` is emitted against the representative `repr`: its
/// serialization is non-empty and close enough to the representative's.
pub open spec fn orphan_keep(t: Seq<TagNode>, th: (int, int), x: NodeId, repr: NodeId) -> bool {
    flatten_at(t, x as int).len() != 0 && rat_le(seq_dist_spec(t, seq![x], seq![repr]), th)
}

/// The children of orphan `o` from position `j` on that match the
/// representative.
pub open spec fn orphan_children_from(
    t: Seq<TagNode>,
    th: (int, int),
    o: NodeId,
    j: int,
    repr: NodeId,
) -> Seq<NodeId>
    decreases t[o as int].children@.len() - j,
{
    if 0 <= j < t[o as int].children@.len() {
        let kid = t[o as int].children@[j];
        (if orphan_keep(t, th, kid, repr) {
            seq![kid]
        } else {
            Seq::empty()
        }) + orphan_children_from(t, th, o, j + 1, repr)
    } else {
        Seq::empty()
    }
}

/// What one uncovered sibling yields: its matching children first, then
/// the sibling itself if it matches.
pub open spec fn orphan_candidates(
    t: Seq<TagNode>,
    th: (int, int),
    o: NodeId,
    repr: NodeId,
) -> Seq<NodeId> {
    orphan_children_from(t, th, o, 0, repr) + (if orphan_keep(t, th, o, repr) {
        seq![o]
    } else {
        Seq::empty()
    })
}

/// Sweeps the children from `idx` on, emitting candidates for every child
/// not covered by a region.
pub open spec fn orphans_scan(
    t: Seq<TagNode>,
    th: (int, int),
    ch: Seq<NodeId>,
    regions: Seq<DataRegion>,
    repr: NodeId,
    idx: int,
) -> Seq<NodeId>
    decreases ch.len() - idx,
{
    if 0 <= idx < ch.len() {
        (if !covered_any(regions, idx) {
            orphan_candidates(t, th, ch[idx], repr)
        } else {
            Seq::empty()
        }) + orphans_scan(t, th, ch, regions, repr, idx + 1)
    } else {
        Seq::empty()
    }
}

/// The orphans recovered under one parent: siblings not covered by any
/// region, compared against the first node of the first region.
pub open spec fn orphans_for_item(t: Seq<TagNode>, th: (int, int), it: RegionsMapItem) -> Seq<
    NodeId,
> {
    if it.regions@.len() == 0 {
        Seq::empty()
    } else {
        match xpath_lookup(t, 0, it.parent_xpath@) {
            None => Seq::empty(),
            Some(p) => {
                let ch = t[p].children@;
                let rg = it.regions@[0];
                if rg.0 == 0 {
                    Seq::empty()
                } else {
                    let repr = ch[rg.1 as int];
                    if flatten_at(t, repr as int).len() == 0 {
                        Seq::empty()
                    } else {
                        orphans_scan(t, th, ch, it.regions@, repr, 0)
                    }
                }
            },
        }
    }
}

pub open spec fn orphans_all_from(
    t: Seq<TagNode>,
    th: (int, int),
    items: Seq<RegionsMapItem>,
    i: int,
) -> Seq<NodeId>
    decreases items.len() - i,
{
    if 0 <= i < items.len() {
        orphans_for_item(t, th, items[i]) + orphans_all_from(t, th, items, i + 1)
    } else {
        Seq::empty()
    }
}

/// A vector of one node id.
fn one_id(x: NodeId) -> (r: Vec<NodeId>)
    ensures
        r@ == seq![x],
{
    let mut v: Vec<NodeId> = Vec::new();
    v.push(x);
    proof {
        assert(v@ =~= seq![x]);
    }
    v
}

/// Whether candidate `x` should be emitted as an orphan.
fn orphan_keep_exec(
    tree: &TagTree,
    x: NodeId,
    repr: NodeId,
    t: &Threshold,
    caches: &mut Caches,
) -> (r: bool)
    requires
        wf_arena(tree.nodes@),
        x < tree.nodes@.len(),
        repr < tree.nodes@.len(),
        old(caches).valid(tree.nodes@),
    ensures
        r == orphan_keep(tree.nodes@, t@, x, repr),
        final(caches).valid(tree.nodes@),
{
    let s = flatten_subtree(tree, x, &mut caches.flat);
    if s.as_str().is_empty() {
        return false;
    }
    let vx = one_id(x);
    let vr = one_id(repr);
    let d = get_normalized_edit_distance_sequences(
        tree,
        vx.as_slice(),
        vr.as_slice(),
        &mut caches.flat,
    );
    d.le_threshold(t)
}

/// Recovers orphan records: for each parent with regions, every child not
/// covered by a region is compared (its children first, then itself)
/// against the first node of the parent's first region, and emitted when
/// similar.  Fails with `InternalError` when some region does not fit
/// inside its parent's children.
pub fn find_orphan_records(
    regions: &[RegionsMapItem],
    t: &Threshold,
    tree: &TagTree,
    caches: &mut Caches,
) -> (r: Result<Vec<NodeId>, MdrError>)
    requires
        wf_arena(tree.nodes@),
        old(caches).valid(tree.nodes@),
    ensures
        final(caches).valid(tree.nodes@),
        match r {
            Ok(v) => items_ok(tree.nodes@, regions@) && v@ == orphans_all_from(
                tree.nodes@,
                t@,
                regions@,
                0,
            ),
            Err(e) => e == MdrError::InternalError && !items_ok(tree.nodes@, regions@),
        },
{
    let ghost tt = tree.nodes@;
    let ghost th = t@;
    if !check_items(tree, regions) {
        return Err(MdrError::InternalError);
    }
    let mut found: Vec<NodeId> = Vec::new();
    let n = regions.len();
    let mut i: usize = 0;
    while i < n
        invariant
            wf_arena(tt),
            tree.nodes@ == tt,
            th == t@,
            caches.valid(tt),
            items_ok(tt, regions@),
            n == regions@.len(),
            i <= n,
            found@ + orphans_all_from(tt, th, regions@, i as int) == orphans_all_from(
                tt,
                th,
                regions@,
                0,
            ),
        decreases n - i,
    {
        let ghost pre_item = found@;
        let item = &regions[i];
        if item.regions.len() > 0 {
            if let Some(parent_node) = get_node_by_xpath(tree, 0, item.parent_xpath.as_str()) {
                let children = get_children(tree, parent_node);
                let n_ch = children.len();
                let ghost ch = children@;
                proof {
                    assert(tt[parent_node as int].wf_in(tt, parent_node as int));
                    assert forall|q: int| 0 <= q < ch.len() implies #[trigger] ch[q] < tt.len() by {}
                    assert(region_bounds_ok(item.regions@[0], n_ch as int));
                }
                let (repr_g, repr_s, _repr_c) = item.regions[0];
                if repr_g > 0 {
                    let repr = children[repr_s];
                    let repr_string = flatten_subtree(tree, repr, &mut caches.flat);
                    if !repr_string.as_str().is_empty() {
                        let mut idx: usize = 0;
                        while idx < n_ch
                            invariant
                                wf_arena(tt),
                                tree.nodes@ == tt,
                                th == t@,
                                caches.valid(tt),
                                ch == children@,
                                n_ch == ch.len(),
                                forall|q: int| 0 <= q < ch.len() ==> #[trigger] ch[q] < tt.len(),
                                repr < tt.len(),
                                item == &regions@[i as int],
                                idx <= n_ch,
                                found@ + orphans_scan(tt, th, ch, item.regions@, repr, idx as int)
                                    == pre_item + orphans_scan(tt, th, ch, item.regions@, repr, 0),
                            decreases n_ch - idx,
                        {
                            // Is this child index covered by any region?
                            let mut is_covered = false;
                            let m = item.regions.len();
                            let mut q: usize = 0;
                            while q < m
                                invariant
                                    m == item.regions@.len(),
                                    q <= m,
                                    idx < n_ch,
                                    is_covered == exists|p: int|
                                        0 <= p < q && (#[trigger] item.regions@[p]).1 <= (
                                        idx as int) && (idx as int) < item.regions@[p].1
                                            + item.regions@[p].2,
                                decreases m - q,
                            {
                                let (_, rs, rc) = item.regions[q];
                                if !is_covered && rs <= idx && (idx - rs) < rc {
                                    is_covered = true;
                                    proof {
                                        assert((item.regions@[q as int]).1 <= (idx as int) && (
                                        idx as int) < item.regions@[q as int].1
                                            + item.regions@[q as int].2);
                                    }
                                }
                                q += 1;
                            }
                            proof {
                                assert(is_covered == covered_any(item.regions@, idx as int));
                            }
                            let ghost pre_scan = found@;
                            if !is_covered {
                                let orphan_node = children[idx];
                                let kid_count = tree.nodes[orphan_node].children.len();
                                proof {
                                    assert(tt[orphan_node as int].wf_in(tt, orphan_node as int));
                                }
                                let mut j: usize = 0;
                                while j < kid_count
                                    invariant
                                        wf_arena(tt),
                                        tree.nodes@ == tt,
                                        th == t@,
                                        caches.valid(tt),
                                        orphan_node < tt.len(),
                                        repr < tt.len(),
                                        kid_count == tt[orphan_node as int].children@.len(),
                                        j <= kid_count,
                                        found@ + orphan_children_from(
                                            tt,
                                            th,
                                            orphan_node,
                                            j as int,
                                            repr,
                                        ) == pre_scan + orphan_children_from(
                                            tt,
                                            th,
                                            orphan_node,
                                            0,
                                            repr,
                                        ),
                                    decreases kid_count - j,
                                {
                                    proof {
                                        assert(tt[orphan_node as int].wf_in(
                                            tt,
                                            orphan_node as int,
                                        ));
                                    }
                                    let kid = tree.nodes[orphan_node].children[j];
                                    let ghost pre_kid = found@;
                                    if orphan_keep_exec(tree, kid, repr, t, caches) {
                                        found.push(kid);
                                        proof {
                                            assert(found@ =~= pre_kid + seq![kid]);
                                        }
                                    }
                                    proof {
                                        assert(found@ + orphan_children_from(tt, th, orphan_node,
                                            j + 1, repr) =~= pre_kid + orphan_children_from(tt,
                                            th, orphan_node, j as int, repr));
                                    }
                                    j += 1;
                                }
                                proof {
                                    assert(orphan_children_from(tt, th, orphan_node,
                                        kid_count as int, repr) =~= Seq::<NodeId>::empty());
                                    assert(found@ + Seq::<NodeId>::empty() =~= found@);
                                }
                                let ghost pre_self = found@;
                                if orphan_keep_exec(tree, orphan_node, repr, t, caches) {
                                    found.push(orphan_node);
                                    proof {
                                        assert(found@ =~= pre_self + seq![orphan_node]);
                                    }
                                }
                                proof {
                                    assert(found@ =~= pre_scan + orphan_candidates(
                                        tt,
                                        th,
                                        ch[idx as int],
                                        repr,
                                    ));
                                }
                            }
                            proof {
                                assert(found@ + orphans_scan(tt, th, ch, item.regions@, repr, idx
                                    + 1) =~= pre_scan + orphans_scan(tt, th, ch, item.regions@,
                                    repr, idx as int));
                            }
                            idx += 1;
                        }
                        proof {
                            assert(orphans_scan(tt, th, ch, item.regions@, repr, n_ch as int)
                                =~= Seq::<NodeId>::empty());
                            assert(found@ + Seq::<NodeId>::empty() =~= found@);
                            assert(found@ =~= pre_item + orphans_for_item(tt, th, regions@[i as int]));
                        }
                    } else {
                        proof {
                            assert(orphans_for_item(tt, th, regions@[i as int])
                                =~= Seq::<NodeId>::empty());
                        }
                    }
                } else {
                    proof {
                        assert(orphans_for_item(tt, th, regions@[i as int])
                            =~= Seq::<NodeId>::empty());
                    }
                }
            } else {
                proof {
                    assert(orphans_for_item(tt, th, regions@[i as int]) =~= Seq::<NodeId>::empty());
                }
            }
        } else {
            proof {
                assert(orphans_for_item(tt, th, regions@[i as int]) =~= Seq::<NodeId>::empty());
            }
        }
        proof {
            assert(found@ =~= pre_item + orphans_for_item(tt, th, regions@[i as int]));
            assert(found@ + orphans_all_from(tt, th, regions@, i + 1) =~= pre_item
                + orphans_all_from(tt, th, regions@, i as int));
        }
        i += 1;
    }
    proof {
        assert(orphans_all_from(tt, th, regions@, n as int) =~= Seq::<NodeId>::empty());
        assert(found@ + Seq::<NodeId>::empty() =~= found@);
        assert(found@ =~= orphans_all_from(tt, th, regions@, 0));
    }
    Ok(found)
}

} // verus!
