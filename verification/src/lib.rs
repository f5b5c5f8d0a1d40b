//! A verified core for browsing a host inventory as a tree.
//!
//! Grouping records ([`model::Group`]) are turned into a display forest of
//! [`model::TreeNode`]s by [`builder::build`], which merges same-named sibling
//! folders and hoists the children of sentinel-path groups one level up.
//! [`nav::NavState`] is a cursor over the flattened, filtered view of that
//! forest ([`flatten::flatten`]): it owns the open set, the selection and the
//! scroll position, and every operation is a verified state transition.

pub mod model;
pub mod builder;
pub mod flatten;
pub mod nav;
