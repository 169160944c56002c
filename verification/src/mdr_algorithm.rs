//! The region finder: for each parent, the maximal tiling of its children
//! by repeating generalized nodes, chosen by coverage with the tie-breaks
//! of [`prefer`]; then the recursive traversal that assembles the regions
//! map.

use vstd::prelude::*;
use crate::index_map::{entries_get, entries_insert, imap_entries, imap_get, imap_insert, imap_new,
    imap_to_entries};
use crate::similarity::{get_normalized_edit_distance_sequences, seq_dist_spec, Caches};
use crate::tree_utils::get_children;
use crate::types::{DataRegion, NodeId, RegionsMapItem, TagNode, TagTree, Threshold, rat_le,
    wf_arena};

verus! {

/// A region triple as mathematical integers.
pub open spec fn region_view(dr: DataRegion) -> (int, int, int) {
    (dr.0 as int, dr.1 as int, dr.2 as int)
}

pub open spec fn regions_view(rs: Seq<DataRegion>) -> Seq<(int, int, int)> {
    rs.map_values(|dr: DataRegion| region_view(dr))
}

/// Whether the generalized node of length `g` at `i` matches the one right
/// after it, under threshold `th`.
pub open spec fn match_at(
    t: Seq<TagNode>,
    ch: Seq<NodeId>,
    g: int,
    i: int,
    th: (int, int),
) -> bool {
    rat_le(seq_dist_spec(t, ch.subrange(i, i + g), ch.subrange(i + g, i + 2 * g)), th)
}

/// How many consecutive matches a run starting at `i` has: positions
/// `i, i+g, ...` match until the first failure or the end of the children.
pub open spec fn run_len(t: Seq<TagNode>, ch: Seq<NodeId>, g: int, i: int, th: (int, int)) -> nat
    decreases ch.len() - i,
{
    if 1 <= g && 0 <= i && i + 2 * g <= ch.len() && match_at(t, ch, g, i, th) {
        1 + run_len(t, ch, g, i + g, th)
    } else {
        0
    }
}

/// The first aligned position at or after `s` where a match opens a run.
pub open spec fn find_start(t: Seq<TagNode>, ch: Seq<NodeId>, g: int, s: int, th: (int, int)) -> Option<
    int,
>
    decreases ch.len() - s,
{
    if 1 <= g && 0 <= s && s + 2 * g <= ch.len() {
        if match_at(t, ch, g, s, th) {
            Some(s)
        } else {
            find_start(t, ch, g, s + g, th)
        }
    } else {
        None
    }
}

/// The region found by one phase: generalized-node length `g`, first
/// position `s`; `None` when no run opens.
pub open spec fn phase_dr(t: Seq<TagNode>, ch: Seq<NodeId>, g: int, s: int, th: (int, int)) -> Option<
    (int, int, int),
> {
    match find_start(t, ch, g, s, th) {
        Some(i0) => Some((g, i0, g * (1 + run_len(t, ch, g, i0, th)))),
        None => None,
    }
}

/// Whether candidate `dr` displaces the champion `cur`: strictly larger
/// coverage that does not start later (unless the champion starts at 0), or
/// identical coverage and start with a smaller generalized node.
pub open spec fn prefer(dr: (int, int, int), cur: (int, int, int)) -> bool {
    (dr.2 > cur.2 && (cur.1 == 0 || dr.1 <= cur.1)) || (dr.2 == cur.2 && dr.1 == cur.1 && dr.0
        < cur.0)
}

/// One champion update: the first candidate seen wins unconditionally.
pub open spec fn champ_step(cand: Option<(int, int, int)>, cur: Option<(int, int, int)>) -> Option<
    (int, int, int),
> {
    match cand {
        None => cur,
        Some(dr) => match cur {
            None => Some(dr),
            Some(c) => if prefer(dr, c) {
                Some(dr)
            } else {
                Some(c)
            },
        },
    }
}

/// The champion after folding the remaining candidates, in order: phases
/// `s, .., start + g - 1` of length `g` (cut off at the children's end),
/// then lengths `g+1, .., k`.
pub open spec fn champ_from(
    t: Seq<TagNode>,
    ch: Seq<NodeId>,
    start: int,
    th: (int, int),
    g: int,
    s: int,
    k: int,
    cur: Option<(int, int, int)>,
) -> Option<(int, int, int)>
    decreases k - g, start + g - s,
{
    if g > k {
        cur
    } else if s >= start + g || s >= ch.len() {
        if g >= k {
            cur
        } else {
            champ_from(t, ch, start, th, g + 1, start, k, cur)
        }
    } else if s < start {
        cur
    } else {
        champ_from(t, ch, start, th, g, s + 1, k, champ_step(phase_dr(t, ch, g, s, th), cur))
    }
}

/// The champion over all phases for `start`.
pub open spec fn champion(t: Seq<TagNode>, ch: Seq<NodeId>, start: int, k: int, th: (int, int)) -> Option<
    (int, int, int),
> {
    champ_from(t, ch, start, th, 1, start, k, None)
}

/// The non-overlapping regions identified from `start` on: the champion,
/// then whatever is identified to the right of it.
pub open spec fn ident_drs_spec(
    t: Seq<TagNode>,
    ch: Seq<NodeId>,
    start: int,
    k: int,
    th: (int, int),
) -> Seq<(int, int, int)>
    decreases ch.len() - start,
{
    match champion(t, ch, start, k, th) {
        None => Seq::empty(),
        Some(m) => {
            let next = m.1 + m.2;
            if next < ch.len() && next > start {
                seq![m] + ident_drs_spec(t, ch, next, k, th)
            } else {
                seq![m]
            }
        },
    }
}

/// What every region of this module satisfies: a positive generalized-node
/// length dividing the node count, at least two generalized nodes, and a
/// span that starts at or after `start` and stays inside the children.
pub open spec fn region_ok(dr: (int, int, int), start: int, n: int) -> bool {
    &&& 1 <= dr.0
    &&& start <= dr.1
    &&& dr.2 >= 2 * dr.0
    &&& dr.2 % dr.0 == 0
    &&& dr.1 + dr.2 <= n
}

proof fn lemma_run_end(t: Seq<TagNode>, ch: Seq<NodeId>, g: int, i: int, th: (int, int))
    requires
        1 <= g,
        0 <= i,
        i + 2 * g <= ch.len(),
        match_at(t, ch, g, i, th),
    ensures
        i + g * (1 + run_len(t, ch, g, i, th)) <= ch.len(),
        g * (1 + run_len(t, ch, g, i, th)) >= 2 * g,
    decreases ch.len() - i,
{
    let r1 = run_len(t, ch, g, i + g, th);
    assert(run_len(t, ch, g, i, th) == 1 + r1);
    if r1 == 0 {
        assert(g * (1 + 1) == 2 * g) by (nonlinear_arith);
    } else {
        assert(i + g + 2 * g <= ch.len() && match_at(t, ch, g, i + g, th));
        lemma_run_end(t, ch, g, i + g, th);
        assert((i + g) + g * (1 + r1) == i + g * (1 + (1 + r1))) by (nonlinear_arith);
        assert(g * (1 + (1 + r1)) >= 2 * g) by (nonlinear_arith)
            requires
                g >= 1,
                r1 >= 0,
        ;
    }
}

proof fn lemma_find_start_ge(t: Seq<TagNode>, ch: Seq<NodeId>, g: int, s: int, th: (int, int))
    ensures
        match find_start(t, ch, g, s, th) {
            Some(i0) => i0 >= s && 1 <= g && 0 <= i0 && i0 + 2 * g <= ch.len() && match_at(
                t,
                ch,
                g,
                i0,
                th,
            ),
            None => true,
        },
    decreases ch.len() - s,
{
    if 1 <= g && 0 <= s && s + 2 * g <= ch.len() && !match_at(t, ch, g, s, th) {
        lemma_find_start_ge(t, ch, g, s + g, th);
    }
}

proof fn lemma_phase_ok(t: Seq<TagNode>, ch: Seq<NodeId>, g: int, s: int, th: (int, int))
    requires
        s >= 0,
    ensures
        match phase_dr(t, ch, g, s, th) {
            Some(dr) => region_ok(dr, s, ch.len() as int) && dr.0 == g,
            None => true,
        },
{
    lemma_find_start_ge(t, ch, g, s, th);
    match find_start(t, ch, g, s, th) {
        Some(i0) => {
            lemma_run_end(t, ch, g, i0, th);
            let r = run_len(t, ch, g, i0, th);
            assert((g * (1 + r)) % g == 0) by (nonlinear_arith)
                requires
                    g >= 1,
                    r >= 0,
            ;
        },
        None => {},
    }
}

proof fn lemma_champ_from_ok(
    t: Seq<TagNode>,
    ch: Seq<NodeId>,
    start: int,
    th: (int, int),
    g: int,
    s: int,
    k: int,
    cur: Option<(int, int, int)>,
)
    requires
        0 <= start <= s,
        match cur {
            Some(c) => region_ok(c, start, ch.len() as int),
            None => true,
        },
    ensures
        match champ_from(t, ch, start, th, g, s, k, cur) {
            Some(c) => region_ok(c, start, ch.len() as int),
            None => true,
        },
    decreases k - g, start + g - s,
{
    if g > k {
    } else if s >= start + g || s >= ch.len() {
        if g < k {
            lemma_champ_from_ok(t, ch, start, th, g + 1, start, k, cur);
        }
    } else if s < start {
    } else {
        lemma_phase_ok(t, ch, g, s, th);
        let stepped = champ_step(phase_dr(t, ch, g, s, th), cur);
        assert(match stepped {
            Some(c) => region_ok(c, start, ch.len() as int),
            None => true,
        });
        lemma_champ_from_ok(t, ch, start, th, g, s + 1, k, stepped);
    }
}

/// The champion, when there is one, is a well-formed region at or after
/// `start`.
pub proof fn lemma_champion_ok(
    t: Seq<TagNode>,
    ch: Seq<NodeId>,
    start: int,
    k: int,
    th: (int, int),
)
    requires
        0 <= start,
    ensures
        match champion(t, ch, start, k, th) {
            Some(c) => region_ok(c, start, ch.len() as int),
            None => true,
        },
{
    lemma_champ_from_ok(t, ch, start, th, 1, start, k, None);
}

/// Every region identified from `start` is well formed (its node count is a
/// multiple of its generalized-node length and covers at least two of them,
/// and it lies inside the children), and consecutive regions do not
/// overlap: each ends at or before the next begins.
pub proof fn lemma_ident_drs_wf(
    t: Seq<TagNode>,
    ch: Seq<NodeId>,
    start: int,
    k: int,
    th: (int, int),
)
    requires
        0 <= start,
    ensures
        forall|q: int|
            0 <= q < ident_drs_spec(t, ch, start, k, th).len() ==> region_ok(
                #[trigger] ident_drs_spec(t, ch, start, k, th)[q],
                start,
                ch.len() as int,
            ),
        forall|q: int|
            0 <= q && q + 1 < ident_drs_spec(t, ch, start, k, th).len() ==> (
            #[trigger] ident_drs_spec(t, ch, start, k, th)[q]).1 + ident_drs_spec(
                t,
                ch,
                start,
                k,
                th,
            )[q].2 <= ident_drs_spec(t, ch, start, k, th)[q + 1].1,
    decreases ch.len() - start,
{
    lemma_champion_ok(t, ch, start, k, th);
    match champion(t, ch, start, k, th) {
        None => {},
        Some(m) => {
            let next = m.1 + m.2;
            if next < ch.len() && next > start {
                lemma_ident_drs_wf(t, ch, next, k, th);
                let rest = ident_drs_spec(t, ch, next, k, th);
                let whole = ident_drs_spec(t, ch, start, k, th);
                assert(whole == seq![m] + rest);
                assert forall|q: int| 0 <= q < whole.len() implies region_ok(
                    #[trigger] whole[q],
                    start,
                    ch.len() as int,
                ) by {
                    if q > 0 {
                        assert(whole[q] == rest[q - 1]);
                        assert(region_ok(rest[q - 1], next, ch.len() as int));
                    }
                }
                assert forall|q: int| 0 <= q && q + 1 < whole.len() implies (#[trigger] whole[q]).1
                    + whole[q].2 <= whole[q + 1].1 by {
                    if q == 0 {
                        assert(whole[1] == rest[0]);
                        assert(region_ok(rest[0], next, ch.len() as int));
                    } else {
                        assert(whole[q] == rest[q - 1] && whole[q + 1] == rest[q]);
                    }
                }
            }
        },
    }
}

/// The stated tie-break: a candidate with the same coverage and the same
/// start as the champion, but a smaller generalized-node length, displaces
/// it.
pub proof fn lemma_champion_tie_break(dr: (int, int, int), cur: (int, int, int))
    requires
        dr.2 == cur.2,
        dr.1 == cur.1,
        dr.0 < cur.0,
    ensures
        prefer(dr, cur),
        champ_step(Some(dr), Some(cur)) == Some(dr),
{
}

pub open spec fn opt_region_view(o: Option<DataRegion>) -> Option<(int, int, int)> {
    match o {
        None => None,
        Some(dr) => Some(region_view(dr)),
    }
}

/// One phase of the scan: slides a cursor from `start_idx` in steps of
/// `gn_length`, comparing each generalized node with the next; opens a run
/// at the first match, extends it while matches continue, and closes it at
/// the first failure.
fn scan_phase(
    tree: &TagTree,
    start_idx: usize,
    children: &[NodeId],
    gn_length: usize,
    t: &Threshold,
    caches: &mut Caches,
) -> (r: Option<DataRegion>)
    requires
        wf_arena(tree.nodes@),
        forall|q: int| 0 <= q < children@.len() ==> #[trigger] children@[q] < tree.nodes@.len(),
        old(caches).valid(tree.nodes@),
        1 <= gn_length,
    ensures
        opt_region_view(r) == phase_dr(
            tree.nodes@,
            children@,
            gn_length as int,
            start_idx as int,
            t@,
        ),
        final(caches).valid(tree.nodes@),
{
    let ghost tt = tree.nodes@;
    let ghost ch = children@;
    let ghost th = t@;
    let ghost gi = gn_length as int;
    let ghost fs = find_start(tt, ch, gi, start_idx as int, th);
    let n = children.len();
    let g = gn_length;
    let mut current_dr: Option<DataRegion> = None;
    let mut check_idx = start_idx;
    let mut done = false;
    while !done
        invariant
            wf_arena(tt),
            tree.nodes@ == tt,
            ch == children@,
            th == t@,
            gi == gn_length as int,
            g == gn_length,
            1 <= g,
            n == ch.len(),
            forall|q: int| 0 <= q < ch.len() ==> #[trigger] ch[q] < tt.len(),
            caches.valid(tt),
            start_idx <= check_idx,
            match current_dr {
                None => fs == find_start(tt, ch, gi, check_idx as int, th) && (done ==> fs is None),
                Some(dr) => {
                    &&& fs == Some(dr.1 as int)
                    &&& dr.0 == g
                    &&& dr.1 + dr.2 == check_idx + g
                    &&& check_idx + g <= n
                    &&& (done ==> run_len(tt, ch, gi, check_idx as int, th) == 0)
                    &&& gi * (1 + run_len(tt, ch, gi, dr.1 as int, th)) == dr.2 + gi * run_len(
                        tt,
                        ch,
                        gi,
                        check_idx as int,
                        th,
                    )
                },
            },
        decreases (if check_idx <= n {
            n - check_idx
        } else {
            0int
        }) + (if done {
            0int
        } else {
            1int
        }),
    {
        let within = check_idx < n && g <= (n - check_idx) / 2;
        proof {
            if check_idx < n {
                let x = n - check_idx as int;
                assert((gi <= x / 2) == (2 * gi <= x)) by (nonlinear_arith)
                    requires
                        x >= 0,
                        gi >= 1,
                ;
                assert(within == (check_idx + 2 * gi <= n));
            } else {
                assert(!within && !(check_idx + 2 * gi <= n));
            }
        }
        if !within {
            done = true;
            proof {
                assert(!(check_idx as int + 2 * gi <= n));
                assert(run_len(tt, ch, gi, check_idx as int, th) == 0);
                assert(find_start(tt, ch, gi, check_idx as int, th) is None);
            }
        } else {
            let gn1 = &children[check_idx..check_idx + g];
            let gn2 = &children[check_idx + g..check_idx + 2 * g];
            proof {
                assert forall|q: int| 0 <= q < gn1@.len() implies #[trigger] gn1@[q] < tt.len() by {
                    assert(gn1@[q] == ch[check_idx + q]);
                }
                assert forall|q: int| 0 <= q < gn2@.len() implies #[trigger] gn2@[q] < tt.len() by {
                    assert(gn2@[q] == ch[check_idx + g + q]);
                }
            }
            let distance = get_normalized_edit_distance_sequences(
                tree,
                gn1,
                gn2,
                &mut caches.flat,
            );
            let matched = distance.le_threshold(t);
            proof {
                assert(gn1@ == ch.subrange(check_idx as int, check_idx + gi));
                assert(gn2@ == ch.subrange(check_idx + gi, check_idx + 2 * gi));
                assert(matched == match_at(tt, ch, gi, check_idx as int, th));
            }
            if matched {
                proof {
                    assert(run_len(tt, ch, gi, check_idx as int, th) == 1 + run_len(
                        tt,
                        ch,
                        gi,
                        check_idx + gi,
                        th,
                    ));
                }
                match current_dr {
                    None => {
                        proof {
                            assert(find_start(tt, ch, gi, check_idx as int, th) == Some(
                                check_idx as int,
                            ));
                        }
                        current_dr = Some((g, check_idx, 2 * g));
                        proof {
                            assert(gi * (1 + run_len(tt, ch, gi, check_idx as int, th)) == 2 * gi
                                + gi * run_len(tt, ch, gi, check_idx + gi, th)) by (nonlinear_arith)
                                requires
                                    run_len(tt, ch, gi, check_idx as int, th) == 1 + run_len(
                                        tt,
                                        ch,
                                        gi,
                                        check_idx + gi,
                                        th,
                                    ),
                            ;
                        }
                    },
                    Some(dr) => {
                        current_dr = Some((dr.0, dr.1, dr.2 + g));
                        proof {
                            assert(gi * (1 + run_len(tt, ch, gi, dr.1 as int, th)) == (dr.2 + gi)
                                + gi * run_len(tt, ch, gi, check_idx + gi, th)) by (nonlinear_arith)
                                requires
                                    gi * (1 + run_len(tt, ch, gi, dr.1 as int, th)) == dr.2 + gi
                                        * run_len(tt, ch, gi, check_idx as int, th),
                                    run_len(tt, ch, gi, check_idx as int, th) == 1 + run_len(
                                        tt,
                                        ch,
                                        gi,
                                        check_idx + gi,
                                        th,
                                    ),
                            ;
                        }
                    },
                }
                check_idx += g;
            } else {
                proof {
                    assert(run_len(tt, ch, gi, check_idx as int, th) == 0);
                }
                if current_dr.is_some() {
                    done = true;
                } else {
                    proof {
                        assert(find_start(tt, ch, gi, check_idx as int, th) == find_start(
                            tt,
                            ch,
                            gi,
                            check_idx + gi,
                            th,
                        ));
                    }
                    check_idx += g;
                }
            }
        }
    }
    proof {
        match current_dr {
            None => {
                assert(phase_dr(tt, ch, gi, start_idx as int, th) is None);
            },
            Some(dr) => {
                assert(gi * (1 + run_len(tt, ch, gi, dr.1 as int, th)) == dr.2 as int) by {
                    assert(run_len(tt, ch, gi, check_idx as int, th) == 0);
                }
                assert(phase_dr(tt, ch, gi, start_idx as int, th) == Some(
                    (gi, dr.1 as int, dr.2 as int),
                ));
            },
        }
    }
    current_dr
}

/// Identifies the non-overlapping data regions among `children` that start
/// no earlier than `start_child_idx`, under generalized-node lengths up to
/// `k` and threshold `t`.
pub fn ident_drs(
    tree: &TagTree,
    start_child_idx: usize,
    children: &[NodeId],
    k: usize,
    t: &Threshold,
    caches: &mut Caches,
) -> (r: Vec<DataRegion>)
    requires
        wf_arena(tree.nodes@),
        forall|q: int| 0 <= q < children@.len() ==> #[trigger] children@[q] < tree.nodes@.len(),
        old(caches).valid(tree.nodes@),
    ensures
        regions_view(r@) == ident_drs_spec(
            tree.nodes@,
            children@,
            start_child_idx as int,
            k as int,
            t@,
        ),
        final(caches).valid(tree.nodes@),
        forall|q: int|
            0 <= q < r@.len() ==> region_ok(
                region_view(#[trigger] r@[q]),
                start_child_idx as int,
                children@.len() as int,
            ),
        forall|q: int|
            0 <= q && q + 1 < r@.len() ==> (#[trigger] r@[q]).1 + r@[q].2 <= r@[q + 1].1,
    decreases children@.len() - start_child_idx,
{
    let ghost tt = tree.nodes@;
    let ghost ch = children@;
    let ghost th = t@;
    let ghost kk = k as int;
    let ghost st = start_child_idx as int;
    let ghost total = champion(tt, ch, st, kk, th);
    let n = children.len();
    let mut current_max: Option<DataRegion> = None;
    let mut gg: usize = 0;
    while gg < k
        invariant
            wf_arena(tt),
            tree.nodes@ == tt,
            ch == children@,
            th == t@,
            kk == k as int,
            st == start_child_idx as int,
            n == ch.len(),
            forall|q: int| 0 <= q < ch.len() ==> #[trigger] ch[q] < tt.len(),
            caches.valid(tt),
            gg <= k,
            champ_from(tt, ch, st, th, gg + 1, st, kk, opt_region_view(current_max)) == total,
            match opt_region_view(current_max) {
                Some(c) => region_ok(c, st, n as int),
                None => true,
            },
        decreases k - gg,
    {
        let g = gg + 1;
        let mut off: usize = 0;
        let mut hit_end = false;
        while off < g && !hit_end
            invariant
                wf_arena(tt),
                tree.nodes@ == tt,
                ch == children@,
                th == t@,
                kk == k as int,
                st == start_child_idx as int,
                n == ch.len(),
                forall|q: int| 0 <= q < ch.len() ==> #[trigger] ch[q] < tt.len(),
                caches.valid(tt),
                1 <= g <= k,
                off <= g,
                hit_end ==> st + off >= n,
                champ_from(tt, ch, st, th, g as int, st + off, kk, opt_region_view(current_max))
                    == total,
                match opt_region_view(current_max) {
                    Some(c) => region_ok(c, st, n as int),
                    None => true,
                },
            decreases g - off + (if hit_end {
                0int
            } else {
                1int
            }),
        {
            if start_child_idx >= n || off >= n - start_child_idx {
                hit_end = true;
            } else {
                let s = start_child_idx + off;
                let cand = scan_phase(tree, s, children, g, t, caches);
                let ghost pre_cur = opt_region_view(current_max);
                proof {
                    lemma_phase_ok(tt, ch, g as int, s as int, th);
                    assert(champ_from(tt, ch, st, th, g as int, s as int, kk, pre_cur)
                        == champ_from(tt, ch, st, th, g as int, s as int + 1, kk, champ_step(
                        phase_dr(tt, ch, g as int, s as int, th),
                        pre_cur,
                    )));
                }
                let should_update = match (&cand, &current_max) {
                    (Some(dr), Some(mx)) => (dr.2 > mx.2 && (mx.1 == 0 || dr.1 <= mx.1)) || (dr.2
                        == mx.2 && dr.1 == mx.1 && dr.0 < mx.0),
                    (Some(_), None) => true,
                    (None, _) => false,
                };
                if should_update {
                    current_max = cand;
                }
                proof {
                    assert(opt_region_view(current_max) == champ_step(
                        phase_dr(tt, ch, g as int, s as int, th),
                        pre_cur,
                    ));
                }
                off += 1;
            }
        }
        proof {
            let cv = opt_region_view(current_max);
            assert(st + off >= st + g || st + off >= n);
            assert(champ_from(tt, ch, st, th, g as int, st + off, kk, cv) == (if g as int >= kk {
                cv
            } else {
                champ_from(tt, ch, st, th, g as int + 1, st, kk, cv)
            }));
            if g as int >= kk {
                assert(champ_from(tt, ch, st, th, g as int + 1, st, kk, cv) == cv);
            }
        }
        gg = g;
    }
    proof {
        assert(champ_from(tt, ch, st, th, kk + 1, st, kk, opt_region_view(current_max))
            == opt_region_view(current_max));
        assert(opt_region_view(current_max) == total);
    }
    let mut identified: Vec<DataRegion> = Vec::new();
    match current_max {
        None => {
            proof {
                assert(regions_view(identified@) =~= ident_drs_spec(tt, ch, st, kk, th));
            }
        },
        Some(max_dr) => {
            identified.push(max_dr);
            let next_start_idx = max_dr.1 + max_dr.2;
            if next_start_idx < n {
                let mut additional = ident_drs(tree, next_start_idx, children, k, t, caches);
                identified.append(&mut additional);
                proof {
                    assert(regions_view(identified@) =~= seq![region_view(max_dr)]
                        + ident_drs_spec(tt, ch, next_start_idx as int, kk, th));
                    assert(regions_view(identified@) =~= ident_drs_spec(tt, ch, st, kk, th));
                }
            } else {
                proof {
                    assert(regions_view(identified@) =~= seq![region_view(max_dr)]);
                    assert(regions_view(identified@) =~= ident_drs_spec(tt, ch, st, kk, th));
                }
            }
        },
    }
    proof {
        lemma_ident_drs_wf(tt, ch, st, kk, th);
        assert forall|q: int| 0 <= q < identified@.len() implies region_ok(
            region_view(#[trigger] identified@[q]),
            st,
            n as int,
        ) by {
            assert(regions_view(identified@)[q] == region_view(identified@[q]));
        }
        assert forall|q: int| 0 <= q && q + 1 < identified@.len() implies (
        #[trigger] identified@[q]).1 + identified@[q].2 <= identified@[q + 1].1 by {
            assert(regions_view(identified@)[q] == region_view(identified@[q]));
            assert(regions_view(identified@)[q + 1] == region_view(identified@[q + 1]));
        }
    }
    identified
}

/// The integer regions of the spec, carried back into `usize` triples.
pub open spec fn regions_unview(s: Seq<(int, int, int)>) -> Seq<DataRegion> {
    s.map_values(|r: (int, int, int)| (r.0 as usize, r.1 as usize, r.2 as usize))
}

/// The regions that [`ident_drs`] returns, as the `usize` triples it stores.
pub open spec fn ident_drs_exec_spec(
    t: Seq<TagNode>,
    ch: Seq<NodeId>,
    start: int,
    k: int,
    th: (int, int),
) -> Seq<DataRegion> {
    regions_unview(ident_drs_spec(t, ch, start, k, th))
}

/// Whether some child of node `i` itself has children.
pub open spec fn has_grandchildren(t: Seq<TagNode>, i: int) -> bool {
    exists|j: int|
        0 <= j < t[i].children@.len() && t[(#[trigger] t[i].children@[j]) as int].children@.len()
            > 0
}

/// The regions computed at node `i` itself: the identification runs only
/// when the node has at least two children and a grandchild exists.
pub open spec fn node_drs_spec(t: Seq<TagNode>, i: int, k: int, th: (int, int)) -> Seq<DataRegion> {
    if has_grandchildren(t, i) && t[i].children@.len() >= 2 {
        ident_drs_exec_spec(t, t[i].children@, 0, k, th)
    } else {
        Seq::empty()
    }
}

/// Whether child position `idx` falls inside any of the regions `drs`.
pub open spec fn covered_by(drs: Seq<DataRegion>, idx: int) -> bool {
    exists|q: int|
        0 <= q < drs.len() && (#[trigger] drs[q]).1 <= idx <= drs[q].1 + drs[q].2 - 1
}

/// The regions-map entries after visiting the subtree rooted at `i`: the
/// node's entry is initialized empty, set to the node's own regions when
/// identification ran, and finally set to those regions followed by the
/// regions of children not covered by them.
pub open spec fn drs_rec_spec(
    t: Seq<TagNode>,
    i: int,
    k: int,
    th: (int, int),
    es: Seq<(Seq<char>, Seq<DataRegion>)>,
) -> Seq<(Seq<char>, Seq<DataRegion>)>
    decreases t.len() - i, 1int, 0int,
{
    if !(0 <= i < t.len() && t[i].wf_in(t, i)) {
        es
    } else {
        let xp = t[i].xpath@;
        let es1 = entries_insert(es, xp, Seq::empty());
        let own = node_drs_spec(t, i, k, th);
        let es2 = if has_grandchildren(t, i) && t[i].children@.len() >= 2 {
            entries_insert(es1, xp, own)
        } else {
            es1
        };
        let pair = drs_rec_kids(t, i, 0, k, th, es2, own, Seq::empty());
        entries_insert(pair.0, xp, own + pair.1)
    }
}

/// Visits children `j..` of node `i`, threading the entries and gathering
/// in `temp` the regions of children not covered by `own`.
pub open spec fn drs_rec_kids(
    t: Seq<TagNode>,
    i: int,
    j: int,
    k: int,
    th: (int, int),
    es: Seq<(Seq<char>, Seq<DataRegion>)>,
    own: Seq<DataRegion>,
    temp: Seq<DataRegion>,
) -> (Seq<(Seq<char>, Seq<DataRegion>)>, Seq<DataRegion>)
    decreases t.len() - i, 0int, t[i].children@.len() - j,
{
    if 0 <= i < t.len() && t[i].wf_in(t, i) && 0 <= j < t[i].children@.len() {
        let c = t[i].children@[j] as int;
        let es2 = drs_rec_spec(t, c, k, th, es);
        let child_drs = match entries_get(es2, t[c].xpath@) {
            Some(v) => v,
            None => Seq::empty(),
        };
        let temp2 = if covered_by(own, j) {
            temp
        } else {
            temp + child_drs
        };
        drs_rec_kids(t, i, j + 1, k, th, es2, own, temp2)
    } else {
        (es, temp)
    }
}

/// A fresh vector holding the same region triples.
fn copy_regions(v: &Vec<DataRegion>) -> (r: Vec<DataRegion>)
    ensures
        r@ == v@,
{
    let mut out: Vec<DataRegion> = Vec::new();
    let mut j: usize = 0;
    while j < v.len()
        invariant
            j <= v@.len(),
            out@ == v@.take(j as int),
        decreases v@.len() - j,
    {
        out.push(v[j]);
        proof {
            assert(out@ =~= v@.take(j + 1));
        }
        j += 1;
    }
    proof {
        assert(v@.take(v@.len() as int) =~= v@);
    }
    out
}

/// Walks the tree below `id`, recording per node the regions found at that
/// node followed by the regions of its uncovered children.
pub fn find_drs_recursive(
    tree: &TagTree,
    id: NodeId,
    k: usize,
    t: &Threshold,
    map: &mut indexmap::IndexMap<String, Vec<DataRegion>>,
    caches: &mut Caches,
)
    requires
        wf_arena(tree.nodes@),
        id < tree.nodes@.len(),
        old(caches).valid(tree.nodes@),
    ensures
        imap_entries(*final(map)) == drs_rec_spec(
            tree.nodes@,
            id as int,
            k as int,
            t@,
            imap_entries(*old(map)),
        ),
        final(caches).valid(tree.nodes@),
    decreases tree.nodes@.len() - id,
{
    let ghost tt = tree.nodes@;
    let ghost th = t@;
    let ghost kk = k as int;
    let ghost es0 = imap_entries(*old(map));
    let node = &tree.nodes[id];
    imap_insert(map, node.xpath.clone(), Vec::new());
    let ghost es1 = imap_entries(*map);
    proof {
        assert(es1 == entries_insert(es0, tt[id as int].xpath@, Seq::empty()));
    }
    // Does any child itself have children?
    let m = node.children.len();
    let mut hg = false;
    let mut j: usize = 0;
    while j < m
        invariant
            tree.nodes@ == tt,
            wf_arena(tt),
            id < tt.len(),
            node == &tt[id as int],
            m == tt[id as int].children@.len(),
            j <= m,
            hg == exists|q: int|
                0 <= q < j && tt[(#[trigger] tt[id as int].children@[q]) as int].children@.len()
                    > 0,
        decreases m - j,
    {
        proof {
            assert(tt[id as int].wf_in(tt, id as int));
        }
        if !hg && tree.nodes[node.children[j]].children.len() > 0 {
            hg = true;
            proof {
                assert(tt[(tt[id as int].children@[j as int]) as int].children@.len() > 0);
            }
        }
        j += 1;
    }
    proof {
        assert(hg == has_grandchildren(tt, id as int));
    }
    let mut node_drs: Vec<DataRegion> = Vec::new();
    if hg && m >= 2 {
        let children = get_children(tree, id);
        proof {
            assert(tt[id as int].wf_in(tt, id as int));
            assert forall|q: int| 0 <= q < children@.len() implies #[trigger] children@[q]
                < tt.len() by {}
        }
        node_drs = ident_drs(tree, 0, children.as_slice(), k, t, caches);
        proof {
            assert forall|q: int| 0 <= q < node_drs@.len() implies node_drs@[q]
                == regions_unview(ident_drs_spec(tt, tt[id as int].children@, 0, kk, th))[q] by {
                assert(regions_view(node_drs@)[q] == region_view(node_drs@[q]));
            }
            assert(node_drs@ =~= node_drs_spec(tt, id as int, kk, th));
        }
        let stored = copy_regions(&node_drs);
        imap_insert(map, node.xpath.clone(), stored);
    }
    proof {
        assert(node_drs@ == node_drs_spec(tt, id as int, kk, th));
        assert(imap_entries(*map) == (if has_grandchildren(tt, id as int) && tt[id as int].children@.len()
            >= 2 {
            entries_insert(es1, tt[id as int].xpath@, node_drs_spec(tt, id as int, kk, th))
        } else {
            es1
        }));
    }
    let ghost es2 = imap_entries(*map);
    let mut temp_drs: Vec<DataRegion> = Vec::new();
    let mut j2: usize = 0;
    while j2 < m
        invariant
            tree.nodes@ == tt,
            wf_arena(tt),
            id < tt.len(),
            m == tt[id as int].children@.len(),
            kk == k as int,
            th == t@,
            j2 <= m,
            caches.valid(tt),
            node_drs@ == node_drs_spec(tt, id as int, kk, th),
            forall|q: int|
                0 <= q < node_drs@.len() ==> region_ok(
                    region_view(#[trigger] node_drs@[q]),
                    0,
                    m as int,
                ),
            drs_rec_kids(tt, id as int, j2 as int, kk, th, imap_entries(*map), node_drs@, temp_drs@)
                == drs_rec_kids(tt, id as int, 0, kk, th, es2, node_drs@, Seq::empty()),
        decreases m - j2,
    {
        proof {
            assert(tt[id as int].wf_in(tt, id as int));
        }
        let ghost es_it = imap_entries(*map);
        let ghost temp_it = temp_drs@;
        let c = tree.nodes[id].children[j2];
        find_drs_recursive(tree, c, k, t, map, caches);
        let child_drs = match imap_get(map, &tree.nodes[c].xpath) {
            Some(v) => v,
            None => Vec::new(),
        };
        proof {
            let fetched = match entries_get(imap_entries(*map), tt[c as int].xpath@) {
                Some(v) => v,
                None => Seq::<DataRegion>::empty(),
            };
            assert(child_drs@ =~= fetched);
        }
        // Is this child index covered by any of this node's own regions?
        let mut is_covered = false;
        let mut q: usize = 0;
        while q < node_drs.len()
            invariant
                node_drs@ == node_drs_spec(tt, id as int, kk, th),
                forall|p: int|
                    0 <= p < node_drs@.len() ==> region_ok(
                        region_view(#[trigger] node_drs@[p]),
                        0,
                        m as int,
                    ),
                q <= node_drs@.len(),
                j2 < m,
                is_covered == exists|p: int|
                    0 <= p < q && (#[trigger] node_drs@[p]).1 <= j2 as int <= node_drs@[p].1
                        + node_drs@[p].2 - 1,
            decreases node_drs@.len() - q,
        {
            let dr = node_drs[q];
            let start_idx = dr.1;
            let node_count = dr.2;
            proof {
                assert(region_ok(region_view(node_drs@[q as int]), 0, m as int));
            }
            let end_idx = start_idx + node_count - 1;
            if !is_covered && j2 >= start_idx && j2 <= end_idx {
                is_covered = true;
                proof {
                    assert((node_drs@[q as int]).1 <= j2 as int <= node_drs@[q as int].1
                        + node_drs@[q as int].2 - 1);
                }
            }
            q += 1;
        }
        proof {
            assert(is_covered == covered_by(node_drs@, j2 as int));
        }
        if !is_covered {
            let ghost pre_add = child_drs@;
            let mut add = child_drs;
            let ghost pre_temp = temp_drs@;
            temp_drs.append(&mut add);
            proof {
                assert(temp_drs@ == pre_temp + pre_add);
            }
        }
        proof {
            let ci = tt[id as int].children@[j2 as int] as int;
            assert(imap_entries(*map) == drs_rec_spec(tt, ci, kk, th, es_it));
            assert(drs_rec_kids(tt, id as int, j2 as int, kk, th, es_it, node_drs@, temp_it)
                == drs_rec_kids(
                tt,
                id as int,
                j2 + 1,
                kk,
                th,
                imap_entries(*map),
                node_drs@,
                temp_drs@,
            ));
        }
        j2 += 1;
    }
    let ghost es_now = imap_entries(*map);
    let ghost temp_snapshot = temp_drs@;
    proof {
        assert(drs_rec_kids(tt, id as int, m as int, kk, th, es_now, node_drs@, temp_snapshot) == (
        es_now,
        temp_snapshot,
        ));
        assert(drs_rec_kids(tt, id as int, 0, kk, th, es2, node_drs@, Seq::empty()) == (
        es_now,
        temp_snapshot,
        ));
    }
    let mut final_drs = node_drs;
    let ghost own_snapshot = final_drs@;
    let mut temp_tail = temp_drs;
    final_drs.append(&mut temp_tail);
    proof {
        assert(final_drs@ == own_snapshot + temp_snapshot);
    }
    imap_insert(map, tree.nodes[id].xpath.clone(), final_drs);
    proof {
        assert(tt[id as int].wf_in(tt, id as int));
        assert(imap_entries(*map) == entries_insert(
            es_now,
            tt[id as int].xpath@,
            own_snapshot + temp_snapshot,
        ));
        assert(drs_rec_spec(tt, id as int, kk, th, es0) == imap_entries(*map));
    }
}

/// The entries of the regions map for the whole tree: the traversal run
/// from the root on an empty map.
pub open spec fn mdr_entries_spec(t: Seq<TagNode>, k: int, th: (int, int)) -> Seq<
    (Seq<char>, Seq<DataRegion>),
> {
    drs_rec_spec(t, 0, k, th, Seq::empty())
}

/// The entries `es[j..]` whose region list is non-empty, in order.
pub open spec fn nonempty_from(es: Seq<(Seq<char>, Seq<DataRegion>)>, j: int) -> Seq<
    (Seq<char>, Seq<DataRegion>),
>
    decreases es.len() - j,
{
    if 0 <= j < es.len() {
        (if es[j].1.len() != 0 {
            seq![es[j]]
        } else {
            Seq::empty()
        }) + nonempty_from(es, j + 1)
    } else {
        Seq::empty()
    }
}

/// Regions-map items as entries: each item's XPath and regions.
pub open spec fn items_view(items: Seq<RegionsMapItem>) -> Seq<(Seq<char>, Seq<DataRegion>)> {
    items.map_values(|it: RegionsMapItem| (it.parent_xpath@, it.regions@))
}

/// Runs the region finder over the whole tree and returns one item per
/// node whose final region list is non-empty, in depth-first first-visit
/// order.
pub fn run_mdr_algorithm(tree: &TagTree, k: usize, t: &Threshold, caches: &mut Caches) -> (r: Vec<
    RegionsMapItem,
>)
    requires
        wf_arena(tree.nodes@),
        old(caches).valid(tree.nodes@),
    ensures
        items_view(r@) == nonempty_from(mdr_entries_spec(tree.nodes@, k as int, t@), 0),
        final(caches).valid(tree.nodes@),
{
    let ghost tt = tree.nodes@;
    let ghost th = t@;
    let ghost kk = k as int;
    let mut map = imap_new();
    find_drs_recursive(tree, 0, k, t, &mut map, caches);
    let ghost es = imap_entries(map);
    proof {
        assert(es == mdr_entries_spec(tt, kk, th));
    }
    let entries = imap_to_entries(&map);
    let n = entries.len();
    let mut all_regions: Vec<RegionsMapItem> = Vec::new();
    let mut j: usize = 0;
    while j < n
        invariant
            n == entries@.len(),
            es.len() == n,
            forall|q: int|
                0 <= q < n ==> (#[trigger] entries@[q]).0@ == es[q].0 && entries@[q].1@
                    == es[q].1,
            j <= n,
            items_view(all_regions@) + nonempty_from(es, j as int) == nonempty_from(es, 0),
        decreases n - j,
    {
        if entries[j].1.len() != 0 {
            let xp = entries[j].0.clone();
            let regs = copy_regions(&entries[j].1);
            let ghost pre = all_regions@;
            all_regions.push(RegionsMapItem { parent_xpath: xp, regions: regs });
            proof {
                assert(items_view(all_regions@) =~= items_view(pre) + seq![es[j as int]]);
                assert((items_view(pre) + seq![es[j as int]]) + nonempty_from(es, j + 1)
                    =~= items_view(pre) + (seq![es[j as int]] + nonempty_from(es, j + 1)));
            }
        } else {
            proof {
                assert(items_view(all_regions@) + Seq::empty() =~= items_view(all_regions@));
                assert(Seq::empty() + nonempty_from(es, j + 1) =~= nonempty_from(es, j + 1));
            }
        }
        j += 1;
    }
    proof {
        assert(nonempty_from(es, n as int) =~= Seq::<(Seq<char>, Seq<DataRegion>)>::empty());
        assert(items_view(all_regions@) + Seq::empty() =~= items_view(all_regions@));
    }
    all_regions
}

/// The entries built by inserting each item of `items[j..]` into `es` in
/// order.
pub open spec fn entries_of_items_from(
    items: Seq<RegionsMapItem>,
    j: int,
    es: Seq<(Seq<char>, Seq<DataRegion>)>,
) -> Seq<(Seq<char>, Seq<DataRegion>)>
    decreases items.len() - j,
{
    if 0 <= j < items.len() {
        entries_of_items_from(
            items,
            j + 1,
            entries_insert(es, items[j].parent_xpath@, items[j].regions@),
        )
    } else {
        es
    }
}

/// Rebuilds the insertion-ordered map from a regions vector.
pub fn regions_to_map(regions: &[RegionsMapItem]) -> (r: indexmap::IndexMap<
    String,
    Vec<DataRegion>,
>)
    ensures
        imap_entries(r) == entries_of_items_from(regions@, 0, Seq::empty()),
{
    let mut map = imap_new();
    let n = regions.len();
    let mut j: usize = 0;
    while j < n
        invariant
            n == regions@.len(),
            j <= n,
            entries_of_items_from(regions@, j as int, imap_entries(map)) == entries_of_items_from(
                regions@,
                0,
                Seq::empty(),
            ),
        decreases n - j,
    {
        let xp = regions[j].parent_xpath.clone();
        let regs = copy_regions(&regions[j].regions);
        imap_insert(&mut map, xp, regs);
        j += 1;
    }
    map
}


} // verus!
