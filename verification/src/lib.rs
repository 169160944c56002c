//! Mining Data Records: given a tag tree derived from an HTML document, locate
//! repeating structural regions among sibling subtrees and extract the
//! individual data records inside those regions.
//!
//! The tree is held in an arena ([`types::TagTree`]); nodes are identified by
//! their arena index, so regions, records and orphans reference nodes without
//! copying them.  All similarity comparisons are exact rationals
//! ([`types::Dist`]), normalized edit distances in `[0, 1]`.

pub mod facade;
pub mod index_map;
pub mod laws;
pub mod mdr_algorithm;
pub mod record_extraction;
pub mod similarity;
pub mod text;
pub mod tree_utils;
pub mod types;
