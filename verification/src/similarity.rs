//! The similarity engine: normalized edit distance on strings and on node
//! sequences, with a per-node-pair memo.
//!
//! Distances are exact rationals.  The normalized edit distance of two
//! strings is `lev / max(len1, len2)` where `lev` is the Levenshtein
//! distance, with the special cases and the fast length rejection of
//! [`edit_distance_spec`].

use vstd::prelude::*;
use std::collections::HashMap;
use crate::types::{Dist, NodeId, TagNode, TagTree, Threshold, rat_le, wf_arena};
use crate::tree_utils::{FlattenCache, flatten_at, flatten_subtree};

verus! {

broadcast use vstd::std_specs::hash::group_hash_axioms;

pub open spec fn nat_min3(a: nat, b: nat, c: nat) -> nat {
    if a <= b && a <= c {
        a
    } else if b <= c {
        b
    } else {
        c
    }
}

/// The length of the longest common subsequence of `a` and `b`.
pub open spec fn lcs(a: Seq<u8>, b: Seq<u8>) -> nat
    decreases a.len(), b.len(),
{
    if a.len() == 0 || b.len() == 0 {
        0
    } else if a.last() == b.last() {
        lcs(a.drop_last(), b.drop_last()) + 1
    } else if lcs(a.drop_last(), b) >= lcs(a, b.drop_last()) {
        lcs(a.drop_last(), b)
    } else {
        lcs(a, b.drop_last())
    }
}

pub proof fn lemma_lcs_le(a: Seq<u8>, b: Seq<u8>)
    ensures
        lcs(a, b) <= a.len(),
        lcs(a, b) <= b.len(),
    decreases a.len(), b.len(),
{
    if a.len() != 0 && b.len() != 0 {
        lemma_lcs_le(a.drop_last(), b.drop_last());
        lemma_lcs_le(a.drop_last(), b);
        lemma_lcs_le(a, b.drop_last());
    }
}

/// The Levenshtein distance between `a` and `b`: the least number of
/// insertions, deletions and substitutions turning one into the other.
pub open spec fn lev<A>(a: Seq<A>, b: Seq<A>) -> nat
    decreases a.len(), b.len(),
{
    if a.len() == 0 {
        b.len()
    } else if b.len() == 0 {
        a.len()
    } else {
        let sub_cost: nat = if a.last() == b.last() {
            0
        } else {
            1
        };
        nat_min3(lev(a.drop_last(), b) + 1, lev(a, b.drop_last()) + 1, lev(
            a.drop_last(),
            b.drop_last(),
        ) + sub_cost)
    }
}

/// The Levenshtein distance never exceeds the longer length.
pub proof fn lemma_lev_le_max<A>(a: Seq<A>, b: Seq<A>)
    ensures
        lev(a, b) <= a.len() || lev(a, b) <= b.len(),
        lev(a, b) <= a.len() + b.len(),
        a.len() >= b.len() ==> lev(a, b) <= a.len(),
        b.len() >= a.len() ==> lev(a, b) <= b.len(),
    decreases a.len(), b.len(),
{
    if a.len() != 0 && b.len() != 0 {
        lemma_lev_le_max(a.drop_last(), b.drop_last());
        lemma_lev_le_max(a.drop_last(), b);
        lemma_lev_le_max(a, b.drop_last());
    }
}

/// The Levenshtein distance is symmetric.
pub proof fn lemma_lev_symm<A>(a: Seq<A>, b: Seq<A>)
    ensures
        lev(a, b) == lev(b, a),
    decreases a.len(), b.len(),
{
    if a.len() != 0 && b.len() != 0 {
        lemma_lev_symm(a.drop_last(), b.drop_last());
        lemma_lev_symm(a.drop_last(), b);
        lemma_lev_symm(a, b.drop_last());
    }
}

/// The Levenshtein distance of a string to itself is zero.
pub proof fn lemma_lev_self<A>(a: Seq<A>)
    ensures
        lev(a, a) == 0,
    decreases a.len(),
{
    if a.len() != 0 {
        lemma_lev_self(a.drop_last());
    }
}

/// Computes the length of the longest common subsequence of two byte
/// strings, with two rolling rows.
pub fn longest_common_subsequence(s1: &[u8], s2: &[u8]) -> (r: usize)
    ensures
        r == lcs(s1@, s2@),
{
    let n = s1.len();
    let m = s2.len();
    if n == 0 || m == 0 {
        return 0;
    }
    let mut prev: Vec<usize> = Vec::new();
    prev.push(0);
    let mut z: usize = 0;
    while z < m
        invariant
            m == s2@.len(),
            prev@.len() == z + 1,
            z <= m,
            forall|q: int| 0 <= q <= z ==> prev@[q] == 0,
        decreases m - z,
    {
        prev.push(0);
        z += 1;
    }
    proof {
        assert forall|q: int| 0 <= q <= m implies prev@[q] == lcs(s1@.take(0), s2@.take(q)) by {
            assert(s1@.take(0).len() == 0);
        }
    }
    let mut ii: usize = 0;
    while ii < n
        invariant
            n == s1@.len(),
            m == s2@.len(),
            ii <= n,
            1 <= m,
            prev@.len() == m + 1,
            forall|q: int| 0 <= q <= m ==> prev@[q] == lcs(s1@.take(ii as int), s2@.take(q)),
        decreases n - ii,
    {
        let i = ii + 1;
        let mut curr: Vec<usize> = Vec::new();
        curr.push(0);
        proof {
            assert(s2@.take(0).len() == 0);
        }
        let mut jj: usize = 0;
        while jj < m
            invariant
                n == s1@.len(),
                m == s2@.len(),
                1 <= i <= n,
                i == ii + 1,
                jj <= m,
                prev@.len() == m + 1,
                curr@.len() == jj + 1,
                forall|q: int| 0 <= q <= m ==> prev@[q] == lcs(s1@.take(i - 1), s2@.take(q)),
                forall|q: int| 0 <= q <= jj ==> curr@[q] == lcs(s1@.take(i as int), s2@.take(q)),
            decreases m - jj,
        {
            let j = jj + 1;
            let ghost pa = s1@.take(i as int);
            let ghost pb = s2@.take(j as int);
            proof {
                assert(pa.drop_last() =~= s1@.take(i - 1));
                assert(pb.drop_last() =~= s2@.take(j - 1));
                assert(pa.last() == s1@[i - 1]);
                assert(pb.last() == s2@[j - 1]);
                lemma_lcs_le(pa.drop_last(), pb.drop_last());
            }
            let v: usize = if s1[i - 1] == s2[j - 1] {
                prev[j - 1] + 1
            } else {
                let x = prev[j];
                let y = curr[j - 1];
                if x >= y {
                    x
                } else {
                    y
                }
            };
            curr.push(v);
            proof {
                assert(curr@[j as int] == lcs(pa, pb));
            }
            jj = j;
        }
        prev = curr;
        ii = i;
    }
    let r = prev[m];
    proof {
        assert(s1@.take(n as int) =~= s1@);
        assert(s2@.take(m as int) =~= s2@);
    }
    r
}

/// The Levenshtein distance over character vectors, with two rolling rows;
/// the rows carry `u128` values so the additions cannot overflow.
fn lev_chars(a: &Vec<char>, b: &Vec<char>) -> (r: usize)
    ensures
        r == lev(a@, b@),
{
    let n = a.len();
    let m = b.len();
    if n == 0 {
        return m;
    }
    if m == 0 {
        return n;
    }
    let mut prev: Vec<u128> = Vec::new();
    prev.push(0);
    let mut z: usize = 0;
    while z < m
        invariant
            m == b@.len(),
            prev@.len() == z + 1,
            z <= m,
            forall|q: int| 0 <= q <= z ==> prev@[q] == q,
        decreases m - z,
    {
        prev.push((z as u128) + 1);
        z += 1;
    }
    proof {
        assert forall|q: int| 0 <= q <= m implies prev@[q] == lev(a@.take(0), b@.take(q)) by {
            assert(a@.take(0).len() == 0);
            assert(b@.take(q).len() == q);
        }
    }
    let mut ii: usize = 0;
    while ii < n
        invariant
            n == a@.len(),
            m == b@.len(),
            ii <= n,
            1 <= m,
            prev@.len() == m + 1,
            forall|q: int| 0 <= q <= m ==> prev@[q] == lev(a@.take(ii as int), b@.take(q)),
        decreases n - ii,
    {
        let i = ii + 1;
        let mut curr: Vec<u128> = Vec::new();
        curr.push(i as u128);
        proof {
            assert(b@.take(0).len() == 0);
            assert(a@.take(i as int).len() == i);
        }
        let mut jj: usize = 0;
        while jj < m
            invariant
                n == a@.len(),
                m == b@.len(),
                1 <= i <= n,
                i == ii + 1,
                jj <= m,
                prev@.len() == m + 1,
                curr@.len() == jj + 1,
                forall|q: int| 0 <= q <= m ==> prev@[q] == lev(a@.take(i - 1), b@.take(q)),
                forall|q: int| 0 <= q <= jj ==> curr@[q] == lev(a@.take(i as int), b@.take(q)),
            decreases m - jj,
        {
            let j = jj + 1;
            let ghost pa = a@.take(i as int);
            let ghost pb = b@.take(j as int);
            proof {
                assert(pa.drop_last() =~= a@.take(i - 1));
                assert(pb.drop_last() =~= b@.take(j - 1));
                assert(pa.last() == a@[i - 1]);
                assert(pb.last() == b@[j - 1]);
                lemma_lev_le_max(pa.drop_last(), pb);
                lemma_lev_le_max(pa, pb.drop_last());
                lemma_lev_le_max(pa.drop_last(), pb.drop_last());
            }
            let cost: u128 = if a[i - 1] == b[j - 1] {
                0
            } else {
                1
            };
            let del = prev[j] + 1;
            let ins = curr[j - 1] + 1;
            let sub = prev[j - 1] + cost;
            let v = if del <= ins && del <= sub {
                del
            } else if ins <= sub {
                ins
            } else {
                sub
            };
            curr.push(v);
            proof {
                assert(curr@[j as int] == lev(pa, pb));
            }
            jj = j;
        }
        prev = curr;
        ii = i;
    }
    let r = prev[m];
    proof {
        assert(a@.take(n as int) =~= a@);
        assert(b@.take(m as int) =~= b@);
        lemma_lev_le_max(a@, b@);
        assert(r <= usize::MAX);
    }
    r as usize
}

/// The characters of `s`, in order.
fn collect_chars(s: &str) -> (v: Vec<char>)
    ensures
        v@ == s@,
{
    let n = s.unicode_len();
    let mut v: Vec<char> = Vec::new();
    let mut i: usize = 0;
    while i < n
        invariant
            n == s@.len(),
            i <= n,
            v@ == s@.take(i as int),
        decreases n - i,
    {
        v.push(s.get_char(i));
        proof {
            assert(v@ =~= s@.take(i + 1));
        }
        i += 1;
    }
    proof {
        assert(s@.take(n as int) =~= s@);
    }
    v
}

/// Computes the Levenshtein distance between two strings, by characters.
pub fn levenshtein_distance(s1: &str, s2: &str) -> (r: usize)
    ensures
        r == lev(s1@, s2@),
{
    let a = collect_chars(s1);
    let b = collect_chars(s2);
    lev_chars(&a, &b)
}

/// The normalized edit distance of two character strings, as a rational
/// `(numerator, denominator)`:
/// zero when both are empty, one when exactly one is empty or when one is
/// more than twice as long as the other, and otherwise the Levenshtein
/// distance divided by the longer length.
pub open spec fn edit_distance_spec(s1: Seq<char>, s2: Seq<char>) -> (int, int) {
    let l1 = s1.len() as int;
    let l2 = s2.len() as int;
    if l1 == 0 && l2 == 0 {
        (0, 1)
    } else if l1 == 0 || l2 == 0 {
        (1, 1)
    } else if l1 > 2 * l2 || l2 > 2 * l1 {
        (1, 1)
    } else {
        (lev(s1, s2) as int, if l1 >= l2 {
            l1
        } else {
            l2
        })
    }
}

/// The normalized edit distance always lies in `[0, 1]`.
pub proof fn lemma_edit_distance_range(s1: Seq<char>, s2: Seq<char>)
    ensures
        1 <= edit_distance_spec(s1, s2).1,
        0 <= edit_distance_spec(s1, s2).0 <= edit_distance_spec(s1, s2).1,
{
    lemma_lev_le_max(s1, s2);
}

/// The normalized edit distance is symmetric, and zero on equal strings.
pub proof fn lemma_edit_distance_symm(s1: Seq<char>, s2: Seq<char>)
    ensures
        edit_distance_spec(s1, s2) == edit_distance_spec(s2, s1),
        edit_distance_spec(s1, s1).0 == 0,
{
    lemma_lev_symm(s1, s2);
    lemma_lev_self(s1);
}

/// Computes the normalized edit distance between two strings.
pub fn edit_distance(s1: &str, s2: &str) -> (r: Dist)
    ensures
        r@ == edit_distance_spec(s1@, s2@),
        r.wf(),
{
    let a = collect_chars(s1);
    let b = collect_chars(s2);
    edit_distance_vecs(&a, &b)
}

/// The distance of [`edit_distance`], taking the characters as vectors.
fn edit_distance_vecs(a: &Vec<char>, b: &Vec<char>) -> (r: Dist)
    ensures
        r@ == edit_distance_spec(a@, b@),
        r.wf(),
{
    let l1 = a.len();
    let l2 = b.len();
    if l1 == 0 && l2 == 0 {
        return Dist { num: 0, den: 1 };
    }
    if l1 == 0 || l2 == 0 {
        return Dist { num: 1, den: 1 };
    }
    let maxl = if l1 >= l2 {
        l1
    } else {
        l2
    };
    let minl = if l1 >= l2 {
        l2
    } else {
        l1
    };
    // maxl > 2 * minl, computed without overflow.
    if maxl - minl > minl {
        return Dist { num: 1, den: 1 };
    }
    let d = lev_chars(a, b);
    proof {
        lemma_lev_le_max(a@, b@);
    }
    Dist { num: d, den: maxl }
}

/// The concatenated serializations of the nodes `ids[j..]`.
pub open spec fn flatten_list(t: Seq<TagNode>, ids: Seq<NodeId>, j: int) -> Seq<char>
    decreases ids.len() - j,
{
    if 0 <= j < ids.len() {
        flatten_at(t, ids[j] as int) + flatten_list(t, ids, j + 1)
    } else {
        Seq::empty()
    }
}

/// Serializes a sequence of nodes and concatenates the results.
pub fn flatten_node_sequence(tree: &TagTree, nodes: &[NodeId], cache: &mut FlattenCache) -> (r:
    String)
    requires
        wf_arena(tree.nodes@),
        forall|q: int| 0 <= q < nodes@.len() ==> #[trigger] nodes@[q] < tree.nodes@.len(),
        old(cache).valid(tree.nodes@),
    ensures
        r@ == flatten_list(tree.nodes@, nodes@, 0),
        final(cache).valid(tree.nodes@),
{
    let ghost t = tree.nodes@;
    let mut s = String::new();
    let m = nodes.len();
    let mut j: usize = 0;
    while j < m
        invariant
            wf_arena(t),
            tree.nodes@ == t,
            m == nodes@.len(),
            forall|q: int| 0 <= q < m ==> #[trigger] nodes@[q] < t.len(),
            cache.valid(t),
            j <= m,
            s@ + flatten_list(t, nodes@, j as int) == flatten_list(t, nodes@, 0),
        decreases m - j,
    {
        let piece = flatten_subtree(tree, nodes[j], cache);
        proof {
            assert((s@ + piece@) + flatten_list(t, nodes@, j + 1) =~= s@ + (piece@ + flatten_list(
                t,
                nodes@,
                j + 1,
            )));
        }
        s.append(piece.as_str());
        j += 1;
    }
    proof {
        assert(flatten_list(t, nodes@, m as int) =~= Seq::<char>::empty());
        assert(s@ + Seq::<char>::empty() =~= s@);
    }
    s
}

/// The normalized edit distance between two node sequences: each side is
/// flattened and concatenated, then compared as strings.
pub open spec fn seq_dist_spec(t: Seq<TagNode>, ids1: Seq<NodeId>, ids2: Seq<NodeId>) -> (int, int) {
    edit_distance_spec(flatten_list(t, ids1, 0), flatten_list(t, ids2, 0))
}

/// Computes the normalized edit distance between two node sequences.
pub fn get_normalized_edit_distance_sequences(
    tree: &TagTree,
    node_seq1: &[NodeId],
    node_seq2: &[NodeId],
    cache: &mut FlattenCache,
) -> (r: Dist)
    requires
        wf_arena(tree.nodes@),
        forall|q: int| 0 <= q < node_seq1@.len() ==> #[trigger] node_seq1@[q] < tree.nodes@.len(),
        forall|q: int| 0 <= q < node_seq2@.len() ==> #[trigger] node_seq2@[q] < tree.nodes@.len(),
        old(cache).valid(tree.nodes@),
    ensures
        r@ == seq_dist_spec(tree.nodes@, node_seq1@, node_seq2@),
        r.wf(),
        final(cache).valid(tree.nodes@),
{
    let s1 = flatten_node_sequence(tree, node_seq1, cache);
    let s2 = flatten_node_sequence(tree, node_seq2, cache);
    edit_distance(s1.as_str(), s2.as_str())
}

/// The normalized edit distance between the serializations of two nodes.
pub open spec fn node_dist_spec(t: Seq<TagNode>, a: int, b: int) -> (int, int) {
    edit_distance_spec(flatten_at(t, a), flatten_at(t, b))
}

/// The node-pair distance is symmetric and zero on a node paired with
/// itself.
pub proof fn lemma_node_dist_symm(t: Seq<TagNode>, a: int, b: int)
    ensures
        node_dist_spec(t, a, b) == node_dist_spec(t, b, a),
        node_dist_spec(t, a, a).0 == 0,
{
    lemma_edit_distance_symm(flatten_at(t, a), flatten_at(t, b));
}

/// The memo key for the unordered node pair `{hi, lo}`, with `hi <= lo`,
/// packed as `hi * 2^32 + lo`.
pub open spec fn key_hi(k: u64) -> int {
    k as int / 0x1_0000_0000
}

pub open spec fn key_lo(k: u64) -> int {
    k as int % 0x1_0000_0000
}

/// Memo of node-pair distances, keyed by the packed unordered pair of node
/// ids.  Every entry holds exactly the distance of its pair, so hits and
/// misses agree.
pub struct DistCache {
    pub map: HashMap<u64, Dist>,
}

impl DistCache {
    pub open spec fn valid(self, t: Seq<TagNode>) -> bool {
        forall|k: u64| #[trigger]
            self.map@.contains_key(k) ==> self.map@[k].wf() && self.map@[k]@ == node_dist_spec(
                t,
                key_hi(k),
                key_lo(k),
            )
    }

    pub fn new() -> (r: DistCache)
        ensures
            r.map@ == Map::<u64, Dist>::empty(),
    {
        DistCache { map: HashMap::new() }
    }

    /// Drops every memoized pair; recomputation gives the same distances.
    pub fn clear(&mut self)
        ensures
            final(self).map@ == Map::<u64, Dist>::empty(),
    {
        self.map.clear();
    }
}

/// The two memos threaded through one run.
pub struct Caches {
    pub flat: FlattenCache,
    pub dist: DistCache,
}

impl Caches {
    pub open spec fn valid(self, t: Seq<TagNode>) -> bool {
        self.flat.valid(t) && self.dist.valid(t)
    }

    pub fn new(tree: &TagTree) -> (r: Caches)
        ensures
            r.valid(tree.nodes@),
            r.dist.map@ == Map::<u64, Dist>::empty(),
    {
        let flat = FlattenCache::new(tree);
        let dist = DistCache::new();
        Caches { flat, dist }
    }
}

/// Computes the normalized edit distance between the serializations of two
/// nodes, memoized per unordered pair of node ids.
pub fn normalized_edit_distance(tree: &TagTree, a: NodeId, b: NodeId, caches: &mut Caches) -> (r:
    Dist)
    requires
        wf_arena(tree.nodes@),
        a < tree.nodes@.len(),
        b < tree.nodes@.len(),
        old(caches).valid(tree.nodes@),
    ensures
        r@ == node_dist_spec(tree.nodes@, a as int, b as int),
        r.wf(),
        final(caches).valid(tree.nodes@),
{
    let ghost t = tree.nodes@;
    let (x, y) = if a <= b {
        (a, b)
    } else {
        (b, a)
    };
    let key: u64 = (x as u64) * 0x1_0000_0000 + (y as u64);
    proof {
        assert(x < 0x1_0000_0000 && y < 0x1_0000_0000);
        assert((x as u64) * 0x1_0000_0000 + (y as u64) <= u64::MAX && ((x as u64) * 0x1_0000_0000
            + (y as u64)) as int / 0x1_0000_0000 == x as int && ((x as u64) * 0x1_0000_0000 + (
        y as u64)) as int % 0x1_0000_0000 == y as int) by (nonlinear_arith)
            requires
                x < 0x1_0000_0000,
                y < 0x1_0000_0000,
        ;
        lemma_node_dist_symm(t, a as int, b as int);
    }
    if let Some(v) = caches.dist.map.get(&key) {
        proof {
            assert(caches.dist.map@.contains_key(key));
            assert(caches.dist.map@[key]@ == node_dist_spec(t, x as int, y as int));
        }
        return *v;
    }
    let sa = flatten_subtree(tree, a, &mut caches.flat);
    let sb = flatten_subtree(tree, b, &mut caches.flat);
    let d = edit_distance(sa.as_str(), sb.as_str());
    let ghost pre = caches.dist.map@;
    caches.dist.map.insert(key, d);
    proof {
        assert forall|k: u64| #[trigger] caches.dist.map@.contains_key(k) implies caches.dist.map@[k].wf()
            && caches.dist.map@[k]@ == node_dist_spec(t, key_hi(k), key_lo(k)) by {
            if k != key {
                assert(pre.contains_key(k));
                assert(caches.dist.map@[k] == pre[k]);
            } else {
                assert(caches.dist.map@[k] == d);
            }
        }
    }
    d
}

/// Whether the distance between two sibling nodes is at or below `t`.
pub fn are_siblings_similar(
    tree: &TagTree,
    a: NodeId,
    b: NodeId,
    t: &Threshold,
    caches: &mut Caches,
) -> (r: bool)
    requires
        wf_arena(tree.nodes@),
        a < tree.nodes@.len(),
        b < tree.nodes@.len(),
        old(caches).valid(tree.nodes@),
    ensures
        r == rat_le(node_dist_spec(tree.nodes@, a as int, b as int), t@),
        final(caches).valid(tree.nodes@),
{
    let d = normalized_edit_distance(tree, a, b, caches);
    d.le_threshold(t)
}

/// Whether every unordered pair among `ids` is within distance `th`;
/// vacuously true for fewer than two nodes.
pub open spec fn all_similar_spec(t: Seq<TagNode>, ids: Seq<NodeId>, th: (int, int)) -> bool {
    forall|p: int, q: int|
        0 <= p < q < ids.len() ==> rat_le(
            node_dist_spec(t, #[trigger] ids[p] as int, #[trigger] ids[q] as int),
            th,
        )
}

/// Checks that all listed siblings are pairwise similar under `t`.
pub fn are_all_siblings_similar(
    tree: &TagTree,
    siblings: &[NodeId],
    t: &Threshold,
    caches: &mut Caches,
) -> (r: bool)
    requires
        wf_arena(tree.nodes@),
        forall|q: int| 0 <= q < siblings@.len() ==> #[trigger] siblings@[q] < tree.nodes@.len(),
        old(caches).valid(tree.nodes@),
    ensures
        r == all_similar_spec(tree.nodes@, siblings@, t@),
        final(caches).valid(tree.nodes@),
{
    let ghost tt = tree.nodes@;
    let n = siblings.len();
    if n < 2 {
        return true;
    }
    let mut i: usize = 0;
    while i < n - 1
        invariant
            wf_arena(tt),
            tree.nodes@ == tt,
            n == siblings@.len(),
            2 <= n,
            forall|q: int| 0 <= q < n ==> #[trigger] siblings@[q] < tt.len(),
            caches.valid(tt),
            i <= n - 1,
            forall|p: int, q: int|
                0 <= p < q < n && p < i ==> rat_le(
                    node_dist_spec(tt, #[trigger] siblings@[p] as int, #[trigger] siblings@[q] as int),
                    t@,
                ),
        decreases n - i,
    {
        let mut j: usize = i + 1;
        while j < n
            invariant
                wf_arena(tt),
                tree.nodes@ == tt,
                n == siblings@.len(),
                2 <= n,
                i < n - 1,
                forall|q: int| 0 <= q < n ==> #[trigger] siblings@[q] < tt.len(),
                caches.valid(tt),
                i + 1 <= j <= n,
                forall|p: int, q: int|
                    0 <= p < q < n && p < i ==> rat_le(
                        node_dist_spec(
                            tt,
                            #[trigger] siblings@[p] as int,
                            #[trigger] siblings@[q] as int,
                        ),
                        t@,
                    ),
                forall|q: int|
                    i < q < j ==> rat_le(
                        node_dist_spec(tt, siblings@[i as int] as int, #[trigger] siblings@[q] as int),
                        t@,
                    ),
            decreases n - j,
        {
            if !are_siblings_similar(tree, siblings[i], siblings[j], t, caches) {
                return false;
            }
            j += 1;
        }
        i += 1;
    }
    true
}

} // verus!
