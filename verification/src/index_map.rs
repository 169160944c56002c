//! Trusted interface to indexmap's `IndexMap`, the insertion-ordered map
//! that holds each parent's regions during tree traversal, keyed by the
//! parent's XPath.
//!
//! The contents are modeled by [`imap_entries`]: the key/value pairs in
//! their order.  Inserting under an existing key keeps its place and
//! replaces the value; a new key goes last; iteration follows that order.

use vstd::prelude::*;
use crate::types::DataRegion;

verus! {

#[verifier::external_type_specification]
#[verifier::external_body]
#[verifier::reject_recursive_types(K)]
#[verifier::reject_recursive_types(V)]
#[verifier::reject_recursive_types(S)]
pub struct ExIndexMap<K, V, S>(indexmap::IndexMap<K, V, S>);

/// The entries of the map, in order: for each, the key's characters and the
/// stored regions.
pub uninterp spec fn imap_entries(m: indexmap::IndexMap<String, Vec<DataRegion>>) -> Seq<
    (Seq<char>, Seq<DataRegion>),
>;

/// The position of key `k` in the entries `es` at or after position `j`, or
/// `es.len()` if `k` does not occur there.
pub open spec fn entries_find_from(
    es: Seq<(Seq<char>, Seq<DataRegion>)>,
    k: Seq<char>,
    j: int,
) -> int
    decreases es.len() - j,
{
    if 0 <= j < es.len() {
        if es[j].0 == k {
            j
        } else {
            entries_find_from(es, k, j + 1)
        }
    } else {
        es.len() as int
    }
}

pub open spec fn entries_find(es: Seq<(Seq<char>, Seq<DataRegion>)>, k: Seq<char>) -> int {
    entries_find_from(es, k, 0)
}

pub open spec fn entries_has(es: Seq<(Seq<char>, Seq<DataRegion>)>, k: Seq<char>) -> bool {
    entries_find(es, k) < es.len()
}

/// The value stored under key `k`, if any.
pub open spec fn entries_get(es: Seq<(Seq<char>, Seq<DataRegion>)>, k: Seq<char>) -> Option<
    Seq<DataRegion>,
> {
    if entries_has(es, k) {
        Some(es[entries_find(es, k)].1)
    } else {
        None
    }
}

/// The entries after `insert(k, v)`: an existing key keeps its place with
/// the value replaced, a new key is appended last.
pub open spec fn entries_insert(
    es: Seq<(Seq<char>, Seq<DataRegion>)>,
    k: Seq<char>,
    v: Seq<DataRegion>,
) -> Seq<(Seq<char>, Seq<DataRegion>)> {
    if entries_has(es, k) {
        es.update(entries_find(es, k), (k, v))
    } else {
        es.push((k, v))
    }
}

/// Relies on indexmap::IndexMap::new: a fresh map holds no entries.
#[verifier::external_body]
pub fn imap_new() -> (r: indexmap::IndexMap<String, Vec<DataRegion>>)
    ensures
        imap_entries(r) == Seq::<(Seq<char>, Seq<DataRegion>)>::empty(),
{
    indexmap::IndexMap::new()
}

/// Relies on indexmap::IndexMap::insert: an equivalent key remains in its
/// place with its value updated; a new key-value pair is inserted last.
#[verifier::external_body]
pub fn imap_insert(
    m: &mut indexmap::IndexMap<String, Vec<DataRegion>>,
    k: String,
    v: Vec<DataRegion>,
)
    ensures
        imap_entries(*final(m)) == entries_insert(imap_entries(*old(m)), k@, v@),
{
    m.insert(k, v);
}

/// Relies on indexmap::IndexMap::get: the value stored under an equal key,
/// if one is present.
#[verifier::external_body]
pub fn imap_get(m: &indexmap::IndexMap<String, Vec<DataRegion>>, k: &String) -> (r: Option<
    Vec<DataRegion>,
>)
    ensures
        match r {
            Some(v) => entries_get(imap_entries(*m), k@) == Some(v@),
            None => entries_get(imap_entries(*m), k@) is None,
        },
{
    m.get(k).cloned()
}

/// Relies on indexmap::IndexMap::iter: the entries come out in their order.
#[verifier::external_body]
pub fn imap_to_entries(m: &indexmap::IndexMap<String, Vec<DataRegion>>) -> (r: Vec<
    (String, Vec<DataRegion>),
>)
    ensures
        r@.len() == imap_entries(*m).len(),
        forall|i: int|
            0 <= i < r@.len() ==> (#[trigger] r@[i]).0@ == imap_entries(*m)[i].0 && r@[i].1@
                == imap_entries(*m)[i].1,
{
    m.iter().map(|(k, v)| (k.clone(), v.clone())).collect()
}

} // verus!
