//! Error taxonomy of the collection pipeline.

use vstd::prelude::*;

verus! {

/// Errors raised by the collection pipeline and the persistence layer.
#[derive(Clone, Copy, Debug, PartialEq, Eq, Structural)]
pub enum CollectError {
    /// A required configuration value (such as a credential) is missing;
    /// fatal, raised before any work starts.
    Configuration,
    /// A continuation-link header is present but malformed; raised by the
    /// pagination resolver instead of silently defaulting.
    Parse,
    /// A single page or secondary-list request failed; recorded per unit
    /// and never aborts sibling units.
    TransientFetch,
    /// A child record's required parent row is missing at persistence
    /// time; fatal to the unit that hit it.
    DataIntegrity,
    /// An already-stored pull request was re-collected; the store rejects
    /// the duplicate insert.
    Uniqueness,
    /// A caller-specified subset of pull-request numbers does not match
    /// the rows present in the store; raised before any remote call.
    CountMismatch,
    /// A row looked up by its key is not in the store.
    NotFound,
}

impl CollectError {
    /// Canonical textual name of the error, for reporting outside the
    /// library.
    pub fn label(&self) -> (r: String)
        ensures
            r@ == self.spec_label(),
    {
        match self {
            CollectError::Configuration => "configuration error".to_owned(),
            CollectError::Parse => "parse error".to_owned(),
            CollectError::TransientFetch => "transient fetch error".to_owned(),
            CollectError::DataIntegrity => "data integrity error".to_owned(),
            CollectError::Uniqueness => "uniqueness violation".to_owned(),
            CollectError::CountMismatch => "count mismatch".to_owned(),
            CollectError::NotFound => "row not found".to_owned(),
        }
    }

    pub open spec fn spec_label(&self) -> Seq<char> {
        match self {
            CollectError::Configuration => "configuration error"@,
            CollectError::Parse => "parse error"@,
            CollectError::TransientFetch => "transient fetch error"@,
            CollectError::DataIntegrity => "data integrity error"@,
            CollectError::Uniqueness => "uniqueness violation"@,
            CollectError::CountMismatch => "count mismatch"@,
            CollectError::NotFound => "row not found"@,
        }
    }
}

} // verus!
