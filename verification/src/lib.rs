//! Topological analysis of musical sonata form.
//!
//! Sonata form structure, tonal transitions on the circle of fifths, the
//! combinatorial skeleton of motivic Vietoris-Rips complexes, tension
//! landscapes and recapitulation bookkeeping, each with a verified contract.
pub mod form;
pub mod transition;
pub mod graph;
pub mod motif;
pub mod tension;
pub mod recapitulation;
