//! Placement of recognizer/connector chains ("organisms") on DNA sequences.
//!
//! An organism is an ordered chain of recognizers (position weight matrices)
//! joined by connectors (Gaussian models of the gap between two motifs).
//! [`Organism::place`] finds, by dynamic programming, the best way to lay the
//! whole chain along a sequence and rebuilds the winning alignment.
//!
//! The engine is generic over the number type of its scores (see [`Real`]).
//! Each operation of the number type is named by a spec function, and the
//! contracts state every score, sum and comparison through those names: the
//! row sums of a recognizer, the gap score of a connector, the dynamic
//! programming recurrence and the rebuilt alignment.

mod aux;
mod connector;
mod error;
mod number;
mod organism;
mod placement;
mod recognizer;

pub use aux::{
    first_max, lemma_first_max_in_range, lemma_first_max_is_first_largest, maxf_idx, strictly_ordered,
};
pub use connector::{
    binom, binomial_fits, connector, fitting, lemma_binom_monotone, null_counts, Connector,
    ConnectorView, Gaussian,
};
pub use error::{ConnectorError, OrganismError, RecognizerError};
pub use number::{num, Real};
pub use organism::{
    chain_energy, merge_target, organism, removed_as, removed_connector, DeletionMethod, Organism,
    OrganismView,
};
pub use placement::{
    follows_traceback, is_chain, lemma_total_len_lower, lemma_total_len_monotone, matrices_shaped,
    offset_of, total_len, traceback_ok, Node, NodeType, Placement, PlacementView,
};
pub use recognizer::{
    base_index, base_of, cell, permuted_as, pssm, scored_columns, scored_prefix, shape, swapped,
    Recognizer, RecognizerFeat, RecognizerView, ShapeFeat,
};
