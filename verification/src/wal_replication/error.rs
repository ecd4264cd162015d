//! Errors of the replication layer.
use vstd::prelude::*;

use crate::storage::{FaultView, IoFault};
use crate::wal_core::error::{WalError, WalErrorView};

verus! {

#[derive(Debug)]
pub enum RaftError {
    /// This node is not the leader; `hint` names the one it last heard of.
    NotLeader { hint: Option<String> },
    /// Too few nodes acknowledged — the entry may not be committed.
    QuorumNotReached,
    /// The node is shutting down.
    Shutdown,
    /// The WAL under the replicated log failed.
    Wal(WalError),
    /// A file of the node could not be read or written.
    Io(IoFault),
    /// The transport to a peer failed, in its own words.
    Transport(String),
    /// A peer answered with an error status, in its own words.
    Status(String),
}

/// A [`RaftError`] with its texts as sequences of characters.
pub enum RaftErrorView {
    NotLeader { hint: Option<Seq<char>> },
    QuorumNotReached,
    Shutdown,
    Wal(WalErrorView),
    Io(FaultView),
    Transport(Seq<char>),
    Status(Seq<char>),
}

/// The characters of an optional string.
pub open spec fn text_view(s: Option<String>) -> Option<Seq<char>> {
    match s {
        Some(s) => Some(s@),
        None => None,
    }
}

impl View for RaftError {
    type V = RaftErrorView;

    open spec fn view(&self) -> RaftErrorView {
        match self {
            RaftError::NotLeader { hint } => RaftErrorView::NotLeader { hint: text_view(*hint) },
            RaftError::QuorumNotReached => RaftErrorView::QuorumNotReached,
            RaftError::Shutdown => RaftErrorView::Shutdown,
            RaftError::Wal(e) => RaftErrorView::Wal(e@),
            RaftError::Io(fault) => RaftErrorView::Io(fault@),
            RaftError::Transport(s) => RaftErrorView::Transport(s@),
            RaftError::Status(s) => RaftErrorView::Status(s@),
        }
    }
}

/// `result` is what `expected` says.
pub open spec fn agrees<T>(
    result: Result<T, RaftError>,
    expected: Result<T, RaftErrorView>,
) -> bool {
    match (result, expected) {
        (Ok(value), Ok(wanted)) => value == wanted,
        (Err(error), Err(view)) => error@ == view,
        _ => false,
    }
}

/// What a WAL operation's result is to the replication layer.
pub open spec fn lifted<T>(result: Result<T, WalErrorView>) -> Result<T, RaftErrorView> {
    match result {
        Ok(value) => Ok(value),
        Err(e) => Err(RaftErrorView::Wal(e)),
    }
}

} // verus!
