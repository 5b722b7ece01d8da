//! Over-representation analysis of a target gene list against a hierarchy of
//! gene sets, with the elimination method: levels are tested from the most
//! specific to the most general, and the genes of every significant term are
//! taken out of its ancestors before those are tested.

pub mod gene_set;
pub mod ontology;
pub mod elimination;
pub mod hypergeom;
