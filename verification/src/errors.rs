//! Errors reported by the engine, and their mathematical view.
use vstd::prelude::*;

use crate::resource::{ResourceKind, ResourcePhase};

verus! {

/// An error of a graph operation.
#[derive(Debug)]
pub enum GraphError {
    /// The engine has not been built yet.
    NotBuilt,
    /// No active node carries the requested identity.
    NodeNotFound { table: String, pk: String },
    /// A filter, edge type or candidate limit is not acceptable.
    InvalidFilter { reason: String },
    /// Persisted bytes or staged records violate their format.
    CorruptFile { reason: String },
    /// A persisted artifact was written by an incompatible version.
    IncompatibleVersion(String),
    /// The operation cannot be served in the current state.
    UnsupportedOperation { operation: String, reason: String },
    /// Every edge type identifier is in use.
    EdgeTypeLimit,
    /// The edge mutation buffer holds `size` entries and accepts no more.
    EdgeBufferFull { size: usize },
    /// The engine rejects mutations.
    ReadOnly { reason: String },
    /// An allocation was refused.
    Oom { used_mb: u64, need_mb: u64, limit_mb: u64 },
    /// A governed resource ran out.
    ResourceLimit { phase: ResourcePhase, resource: ResourceKind },
    /// An internal invariant or a size computation failed.
    Internal(String),
}

/// Result of a graph operation.
pub type GraphResult<T> = Result<T, GraphError>;

/// What a [`GraphError`] says, with its texts as character sequences.
#[verifier::ext_equal]
pub enum ErrorView {
    NotBuilt,
    NodeNotFound { table: Seq<char>, pk: Seq<char> },
    InvalidFilter(Seq<char>),
    CorruptFile(Seq<char>),
    IncompatibleVersion(Seq<char>),
    UnsupportedOperation { operation: Seq<char>, reason: Seq<char> },
    EdgeTypeLimit,
    EdgeBufferFull(int),
    ReadOnly(Seq<char>),
    Oom { used_mb: int, need_mb: int, limit_mb: int },
    ResourceLimit { phase: ResourcePhase, resource: ResourceKind },
    Internal(Seq<char>),
}

impl View for GraphError {
    type V = ErrorView;

    open spec fn view(&self) -> ErrorView {
        match self {
            GraphError::NotBuilt => ErrorView::NotBuilt,
            GraphError::NodeNotFound { table, pk } => ErrorView::NodeNotFound {
                table: table@,
                pk: pk@,
            },
            GraphError::InvalidFilter { reason } => ErrorView::InvalidFilter(reason@),
            GraphError::CorruptFile { reason } => ErrorView::CorruptFile(reason@),
            GraphError::IncompatibleVersion(text) => ErrorView::IncompatibleVersion(text@),
            GraphError::UnsupportedOperation { operation, reason } =>
                ErrorView::UnsupportedOperation { operation: operation@, reason: reason@ },
            GraphError::EdgeTypeLimit => ErrorView::EdgeTypeLimit,
            GraphError::EdgeBufferFull { size } => ErrorView::EdgeBufferFull(*size as int),
            GraphError::ReadOnly { reason } => ErrorView::ReadOnly(reason@),
            GraphError::Oom { used_mb, need_mb, limit_mb } => ErrorView::Oom {
                used_mb: *used_mb as int,
                need_mb: *need_mb as int,
                limit_mb: *limit_mb as int,
            },
            GraphError::ResourceLimit { phase, resource } => ErrorView::ResourceLimit {
                phase: *phase,
                resource: *resource,
            },
            GraphError::Internal(text) => ErrorView::Internal(text@),
        }
    }
}

/// An [`GraphError::Internal`] with the given text.
pub fn internal(text: &str) -> (error: GraphError)
    ensures
        error@ == ErrorView::Internal(text@),
{
    GraphError::Internal(text.to_owned())
}

/// A [`GraphError::CorruptFile`] with the given reason.
pub fn corrupt(reason: &str) -> (error: GraphError)
    ensures
        error@ == ErrorView::CorruptFile(reason@),
{
    GraphError::CorruptFile { reason: reason.to_owned() }
}

/// A [`GraphError::InvalidFilter`] with the given reason.
pub fn invalid_filter(reason: &str) -> (error: GraphError)
    ensures
        error@ == ErrorView::InvalidFilter(reason@),
{
    GraphError::InvalidFilter { reason: reason.to_owned() }
}

} // verus!
