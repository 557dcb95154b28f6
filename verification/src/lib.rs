//! Builds the Engineering Canon page model from the canon data: card slugs,
//! validation, the lineage graph and its cross-references, category
//! sections, the decade-grouped chronology and the sidecar manifest rules.

pub mod text;
pub mod util;
pub mod model;
pub mod order;
pub mod graph;
pub mod escape;
pub mod view;
pub mod freshness;
pub mod sidecar;
pub mod page;
