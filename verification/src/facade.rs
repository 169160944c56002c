//! The single entry point: tree in, regions, records and orphans out, with
//! parameter validation at the boundary.

use vstd::prelude::*;
use crate::mdr_algorithm::{mdr_entries_spec, nonempty_from, items_view, run_mdr_algorithm};
use crate::record_extraction::{extract_all_spec, find_orphan_records,
    identify_all_data_records_with_tree, items_ok, orphans_all_from, records_view,
    region_bounds_ok};
use crate::similarity::Caches;
use crate::tree_utils::xpath_lookup;
use crate::types::{DataRegion, MdrError, MdrFullOutput, TagNode, TagTree, Threshold, wf_tree};

verus! {

/// The default maximum generalized-node length.
pub open spec fn default_k() -> int {
    10
}

/// The indexing assumptions of extraction, stated of one entry's view.
pub open spec fn entry_ok(t: Seq<TagNode>, e: (Seq<char>, Seq<DataRegion>)) -> bool {
    match xpath_lookup(t, 0, e.0) {
        None => true,
        Some(p) => forall|q: int|
            0 <= q < e.1.len() ==> region_bounds_ok(#[trigger] e.1[q], t[p].children@.len() as int),
    }
}

pub open spec fn entries_ok(t: Seq<TagNode>, es: Seq<(Seq<char>, Seq<DataRegion>)>) -> bool {
    forall|i: int| 0 <= i < es.len() ==> entry_ok(t, #[trigger] es[i])
}

/// The indexing assumptions depend only on the items' views.
proof fn lemma_items_ok_entries(t: Seq<TagNode>, items: Seq<crate::types::RegionsMapItem>)
    ensures
        items_ok(t, items) == entries_ok(t, items_view(items)),
{
    let es = items_view(items);
    if items_ok(t, items) {
        assert forall|i: int| 0 <= i < es.len() implies entry_ok(t, #[trigger] es[i]) by {
            assert(es[i] == (items[i].parent_xpath@, items[i].regions@));
        }
    }
    if entries_ok(t, es) {
        assert forall|i: int|
            0 <= i < items.len() implies match xpath_lookup(
            t,
            0,
            (#[trigger] items[i]).parent_xpath@,
        ) {
            None => true,
            Some(p) => forall|q: int|
                0 <= q < items[i].regions@.len() ==> region_bounds_ok(
                    #[trigger] items[i].regions@[q],
                    t[p].children@.len() as int,
                ),
        } by {
            assert(es[i] == (items[i].parent_xpath@, items[i].regions@));
            assert(entry_ok(t, es[i]));
            match xpath_lookup(t, 0, items[i].parent_xpath@) {
                None => {},
                Some(p) => {
                    assert forall|q: int| 0 <= q < items[i].regions@.len() implies region_bounds_ok(
                        #[trigger] items[i].regions@[q],
                        t[p].children@.len() as int,
                    ) by {
                        assert(region_bounds_ok(es[i].1[q], t[p].children@.len() as int));
                    }
                },
            }
        }
    }
}

/// What a successful run returns: the regions of the whole tree, the
/// records extracted from them, and the orphans recovered against them.
pub open spec fn output_ok(t: Seq<TagNode>, k: int, th: (int, int), out: MdrFullOutput) -> bool {
    &&& items_view(out.regions@) == nonempty_from(mdr_entries_spec(t, k, th), 0)
    &&& records_view(out.records@) == extract_all_spec(t, th, out.regions@)
    &&& out.orphans@ == orphans_all_from(t, th, out.regions@, 0)
}

pub open spec fn effective_k(k: Option<usize>) -> int {
    match k {
        Some(v) => v as int,
        None => default_k(),
    }
}

pub open spec fn effective_t(t: Option<Threshold>) -> Threshold {
    match t {
        Some(v) => v,
        None => Threshold { num: 3, den: 10 },
    }
}

/// Runs the whole engine: region identification over the tree, record
/// extraction, and orphan recovery.  `k` defaults to 10 and `t` to 3/10.
/// Fails with `InvalidTree` when the tree is not a well-formed arena, with
/// `InvalidParameter` when `k < 1` or the threshold does not lie in
/// `[0, 1]`, and with `InternalError` when the assembled regions map does
/// not fit the tree.
pub fn run_mdr_full(tree: &TagTree, k: Option<usize>, t: Option<Threshold>) -> (r: Result<
    MdrFullOutput,
    MdrError,
>)
    ensures
        match r {
            Ok(out) => {
                &&& wf_tree(tree.nodes@)
                &&& effective_k(k) >= 1
                &&& effective_t(t).wf()
                &&& output_ok(tree.nodes@, effective_k(k), effective_t(t)@, out)
                &&& items_ok(tree.nodes@, out.regions@)
            },
            Err(MdrError::InvalidTree) => !wf_tree(tree.nodes@),
            Err(MdrError::InvalidParameter) => wf_tree(tree.nodes@) && !(effective_k(k) >= 1
                && effective_t(t).wf()),
            Err(MdrError::InternalError) => {
                &&& wf_tree(tree.nodes@)
                &&& effective_k(k) >= 1
                &&& effective_t(t).wf()
                &&& !entries_ok(
                    tree.nodes@,
                    nonempty_from(mdr_entries_spec(tree.nodes@, effective_k(k), effective_t(t)@), 0),
                )
            },
        },
{
    let ghost tt = tree.nodes@;
    if !tree.is_well_formed() {
        return Err(MdrError::InvalidTree);
    }
    let k_eff = match k {
        Some(v) => v,
        None => 10,
    };
    let t_eff = match t {
        Some(v) => v,
        None => Threshold { num: 3, den: 10 },
    };
    if k_eff < 1 || t_eff.den < 1 || t_eff.num > t_eff.den {
        return Err(MdrError::InvalidParameter);
    }
    let mut caches = Caches::new(tree);
    let regions = run_mdr_algorithm(tree, k_eff, &t_eff, &mut caches);
    let records = match identify_all_data_records_with_tree(
        regions.as_slice(),
        &t_eff,
        tree,
        &mut caches,
    ) {
        Ok(v) => v,
        Err(e) => {
            proof {
                lemma_items_ok_entries(tt, regions@);
            }
            return Err(e);
        },
    };
    let orphans = match find_orphan_records(regions.as_slice(), &t_eff, tree, &mut caches) {
        Ok(v) => v,
        Err(e) => {
            proof {
                lemma_items_ok_entries(tt, regions@);
            }
            return Err(e);
        },
    };
    Ok(MdrFullOutput { regions, records, orphans })
}

/// Drops every memoized node-pair distance; the per-node serialization
/// memo is untouched.  Recomputation yields the same distances.
pub fn clear_distance_cache(caches: &mut Caches)
    ensures
        final(caches).dist.map@ == Map::<u64, crate::types::Dist>::empty(),
        final(caches).flat == old(caches).flat,
        forall|t: Seq<TagNode>| old(caches).valid(t) ==> final(caches).valid(t),
{
    caches.dist.clear();
}

} // verus!
