//! Merging of metadata policies along a trust chain, and resolution of a
//! merged policy against an entity's metadata.
//!
//! `merge` combines the policy of a superior authority with that of an
//! immediate issuer; `resolve` applies the merged policy to metadata. Both
//! are stated over the mathematical views of the types in `value` and
//! `policy`; `sets` holds the ordered-set primitives beneath them and `laws`
//! the properties that relate them.
use vstd::prelude::*;

pub mod value;
pub mod sets;
pub mod policy;
pub mod merge;
pub mod resolve;
pub mod compare;
pub mod laws;

pub use compare::{check_equal, get_hashset_from_only_names};
pub use merge::merge_policies;
pub use resolve::resolve_metadata_policy;
pub use sets::{
    get_hashset_from_values, get_ordered_array, intersection_of, is_subset_of, is_superset_of,
};

verus! {

} // verus!
