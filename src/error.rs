use vstd::prelude::*;

verus! {

/// Failures of a recognizer.
#[derive(Copy, Clone, Debug, PartialEq, Eq, Structural)]
pub enum RecognizerError {
    /// The recognizer definition could not be loaded.
    LoadRecognizerError,
    /// Scoring by DNA shape is not implemented; only base matrices score.
    ShapeUnimplemented,
}

/// Failures of a connector.
#[derive(Copy, Clone, Debug, PartialEq, Eq, Structural)]
pub enum ConnectorError {
    /// The connector definition could not be loaded.
    LoadConnectorError,
}

/// Failures of an organism.
#[derive(Copy, Clone, Debug, PartialEq, Eq, Structural)]
pub enum OrganismError {
    /// The organism definition could not be loaded.
    LoadOrganismError,
    /// A recognizer of the organism failed.
    RecognizerError(RecognizerError),
    /// A connector of the organism failed.
    ConnectorError(ConnectorError),
    /// The recognizers together are longer than the sequence.
    ExceedSeqError,
}

} // verus!
