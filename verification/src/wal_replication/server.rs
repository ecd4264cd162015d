//! What clients are answered.
use vstd::prelude::*;
use vstd::string::*;

use crate::wal_replication::error::{RaftError, RaftErrorView};

verus! {

/// The answer to a client's write.
#[derive(Debug)]
pub struct WriteResponse {
    pub success: bool,
    /// The index of the entry, 0 where there is none.
    pub index: u64,
    /// Whom to ask instead, if that is known; empty otherwise.
    pub leader_hint: String,
}

/// A [`WriteResponse`] with its text as a sequence of characters.
pub struct WriteResponseView {
    pub success: bool,
    pub index: u64,
    pub leader_hint: Seq<char>,
}

impl View for WriteResponse {
    type V = WriteResponseView;

    open spec fn view(&self) -> WriteResponseView {
        WriteResponseView {
            success: self.success,
            index: self.index,
            leader_hint: self.leader_hint@,
        }
    }
}

/// What a client is answered to a write of this result: a write to a node that
/// does not lead is answered with whom to ask, every other failure is an error.
pub open spec fn write_answer(result: Result<u64, RaftErrorView>) -> Result<
    WriteResponseView,
    RaftErrorView,
> {
    match result {
        Ok(index) => Ok(WriteResponseView { success: true, index, leader_hint: Seq::empty() }),
        Err(RaftErrorView::NotLeader { hint }) => Ok(
            WriteResponseView {
                success: false,
                index: 0,
                leader_hint: match hint {
                    Some(leader) => leader,
                    None => Seq::empty(),
                },
            },
        ),
        Err(e) => Err(e),
    }
}

/// The result of a write, seen as mathematical values.
pub open spec fn result_view(result: Result<u64, RaftError>) -> Result<u64, RaftErrorView> {
    match result {
        Ok(index) => Ok(index),
        Err(e) => Err(e@),
    }
}

/// The answer to a client whose write had this result.
pub fn write_response(result: Result<u64, RaftError>) -> (answer: Result<WriteResponse, RaftError>)
    ensures
        match (answer, write_answer(result_view(result))) {
            (Ok(response), Ok(view)) => response@ == view,
            (Err(e), Err(view)) => e@ == view,
            _ => false,
        },
{
    proof {
        reveal_strlit("");
        assert(""@ =~= Seq::<char>::empty());
    }
    match result {
        Ok(index) => Ok(WriteResponse { success: true, index, leader_hint: "".to_owned() }),
        Err(RaftError::NotLeader { hint }) => Ok(
            WriteResponse {
                success: false,
                index: 0,
                leader_hint: match hint {
                    Some(leader) => leader,
                    None => "".to_owned(),
                },
            },
        ),
        Err(e) => Err(e),
    }
}

/// A client learns of a write that is stored its index, of one that another node has to
/// take whom to ask, as far as that is known, and of anything else that went wrong the
/// error itself.
pub proof fn client_learns_what_became_of_a_write(
    index: u64,
    hint: Option<Seq<char>>,
    e: RaftErrorView,
)
    ensures
        write_answer(Ok(index)) matches Ok(answer) && answer.success && answer.index == index
            && answer.leader_hint.len() == 0,
        write_answer(Err(RaftErrorView::NotLeader { hint })) matches Ok(answer) && !answer.success
            && answer.index == 0 && match hint {
            Some(leader) => answer.leader_hint == leader,
            None => answer.leader_hint.len() == 0,
        },
        !(e is NotLeader) ==> write_answer(Err(e)) == Err::<WriteResponseView, RaftErrorView>(e),
{
}

} // verus!
