//! Durable Raft state: `current_term` and `voted_for`.
//!
//! Raft requires these two values to survive crashes. They are stored in a
//! single binary file (`raft_state.bin`) using an atomic write (temp + rename),
//! like the checkpoint of the WAL.
//!
//! # Format
//!
//! ```text
//! [ term: u64 LE ][ voted_for_len: u32 LE ][ voted_for: utf-8 bytes (N) ]
//! ```
//!
//! `voted_for_len == 0` means "not voted in this term".
use vstd::prelude::*;
use vstd::slice::slice_subrange;
use vstd::string::*;
use vstd::utf8;

use crate::bytes;
use crate::bytes::{copy_bytes, get_u32, get_u64, put_bytes, put_len, put_u64};
use crate::storage;
use crate::storage::{Contents, Disk, FaultView, FileAction, FileOp, Files, IoFault, Outcome, OutcomeView};
use crate::text;
use crate::wal_replication::config::NodeId;
use crate::wal_replication::error;
use crate::wal_replication::error::{RaftError, RaftErrorView};

verus! {

broadcast use vstd::slice::group_slice_axioms;

pub struct PersistentState {
    /// Directory that holds the state file.
    pub dir: String,
    pub current_term: u64,
    pub voted_for: Option<NodeId>,
}

/// A [`PersistentState`] with its texts as sequences of characters.
pub struct StateView {
    pub dir: Seq<char>,
    pub current_term: u64,
    pub voted_for: Option<Seq<char>>,
}

impl View for PersistentState {
    type V = StateView;

    open spec fn view(&self) -> StateView {
        StateView {
            dir: self.dir@,
            current_term: self.current_term,
            voted_for: error::text_view(self.voted_for),
        }
    }
}

/// Where the state of the node in `dir` is kept.
pub open spec fn file_path(dir: Seq<char>) -> Seq<char> {
    text::joined(dir, "raft_state.bin"@)
}

/// Where a new state is written before it replaces the old one.
pub open spec fn temp_path(dir: Seq<char>) -> Seq<char> {
    text::joined(dir, "raft_state.tmp"@)
}

// ─── Format ──────────────────────────────────────────────────────────────────

/// The UTF-8 bytes of a vote; no vote is written like an empty name.
pub open spec fn vote_bytes(voted_for: Option<Seq<char>>) -> Seq<u8> {
    match voted_for {
        Some(name) => utf8::encode_utf8(name),
        None => Seq::empty(),
    }
}

/// The file contents for a term and a vote.
pub open spec fn encoded(term: u64, voted_for: Option<Seq<char>>) -> Seq<u8> {
    let name = vote_bytes(voted_for);
    bytes::le_bytes(term as nat, 8) + bytes::le_bytes(name.len(), 4) + name
}

/// The term and the vote that file contents state. Too short a file states
/// nothing, and a name that is empty, cut off or no UTF-8 is no vote.
pub open spec fn decoded(raw: Seq<u8>) -> (u64, Option<Seq<char>>) {
    if raw.len() < 12 {
        (0, None)
    } else {
        let term = bytes::le_value(raw.subrange(0, 8)) as u64;
        let len = bytes::le_value(raw.subrange(8, 12)) as int;
        if len == 0 || raw.len() < 12 + len || !utf8::valid_utf8(raw.subrange(12, 12 + len)) {
            (term, None)
        } else {
            (term, Some(utf8::decode_utf8(raw.subrange(12, 12 + len))))
        }
    }
}

/// The file contents for a term and a vote.
pub fn encode(term: u64, voted_for: Option<&str>) -> (buf: Vec<u8>)
    ensures
        buf@ == encoded(
            term,
            match voted_for {
                Some(name) => Some(name@),
                None => None,
            },
        ),
{
    let mut buf: Vec<u8> = Vec::new();
    put_u64(&mut buf, term);
    match voted_for {
        Some(name) => {
            let raw = name.as_bytes();
            put_len(&mut buf, raw.len());
            put_bytes(&mut buf, raw);
            assert(buf@ =~= encoded(term, Some(name@)));
        },
        None => {
            put_len(&mut buf, 0);
            assert(buf@ =~= encoded(term, None));
        },
    }
    buf
}

/// Calls `String::from_utf8`. Valid UTF-8 gives the string of those bytes,
/// anything else gives none.
#[verifier::external_body]
fn text_of(raw: Vec<u8>) -> (s: Option<String>)
    ensures
        match s {
            Some(s) => utf8::valid_utf8(raw@) && s@ == utf8::decode_utf8(raw@),
            None => !utf8::valid_utf8(raw@),
        },
{
    String::from_utf8(raw).ok()
}

/// The term and the vote that file contents state.
pub fn decode(raw: &[u8]) -> (state: (u64, Option<NodeId>))
    ensures
        (state.0, error::text_view(state.1)) == decoded(raw@),
{
    if raw.len() < 12 {
        return (0, None);
    }
    let term: u64 = get_u64(raw, 0);
    let len: usize = get_u32(raw, 8) as usize;
    if len == 0 || raw.len() - 12 < len {
        (term, None)
    } else {
        (term, text_of(copy_bytes(slice_subrange(raw, 12, 12 + len))))
    }
}

// ─── Operations ──────────────────────────────────────────────────────────────

/// The state that a file of these contents states; a missing file is a node
/// that has not taken part in any term yet.
pub open spec fn loaded(contents: Contents) -> Result<(u64, Option<Seq<char>>), RaftErrorView> {
    match contents {
        Ok(raw) => Ok(decoded(raw)),
        Err(FaultView::NotFound) => Ok((0, None)),
        Err(fault) => Err(RaftErrorView::Io(fault)),
    }
}

/// The result of storing the state: of its two steps either one can fail.
pub open spec fn persisted(io: OutcomeView) -> Result<(), RaftErrorView> {
    match io.fault_before(2) {
        Some(fault) => Err(RaftErrorView::Io(fault)),
        None => Ok(()),
    }
}

impl StateView {
    /// What has to be done on disk to store the state.
    pub open spec fn persist_ops(self) -> Seq<FileOp> {
        seq![
            FileOp::Write(temp_path(self.dir), encoded(self.current_term, self.voted_for)),
            FileOp::Rename(temp_path(self.dir), file_path(self.dir)),
        ]
    }

    /// The state in term `term`, without a vote.
    pub open spec fn in_term(self, term: u64) -> StateView {
        StateView { current_term: term, voted_for: None, ..self }
    }

    /// The state with a vote for `candidate`.
    pub open spec fn with_vote(self, candidate: Seq<char>) -> StateView {
        StateView { voted_for: Some(candidate), ..self }
    }
}

impl PersistentState {
    /// Load the state from `files`, or start at term 0 without a vote.
    pub fn open(dir: &str, files: &Files) -> (state: Result<PersistentState, RaftError>)
        ensures
            match (state, loaded(storage::lookup(files@, file_path(dir@)))) {
                (Ok(s), Ok((term, vote))) => s@ == (StateView {
                    dir: dir@,
                    current_term: term,
                    voted_for: vote,
                }),
                (Err(e), Err(view)) => e@ == view,
                _ => false,
            },
    {
        let path = text::join(dir, "raft_state.bin");
        match files.get(&path) {
            Ok(raw) => {
                let (current_term, voted_for) = decode(raw.as_slice());
                Ok(PersistentState { dir: dir.to_owned(), current_term, voted_for })
            },
            Err(IoFault::NotFound) => Ok(
                PersistentState { dir: dir.to_owned(), current_term: 0, voted_for: None },
            ),
            Err(fault) => Err(RaftError::Io(fault)),
        }
    }

    /// What has to be done to flush the current term and vote to disk atomically.
    pub fn persist_actions(&self) -> (actions: Vec<FileAction>)
        ensures
            storage::ops(actions@) == self@.persist_ops(),
    {
        let tmp = text::join(self.dir.as_str(), "raft_state.tmp");
        let path = text::join(self.dir.as_str(), "raft_state.bin");
        let vote: Option<&str> = match &self.voted_for {
            Some(name) => Some(name.as_str()),
            None => None,
        };
        let raw = encode(self.current_term, vote);
        let mut actions: Vec<FileAction> = Vec::new();
        actions.push(FileAction::Write { path: tmp.clone(), bytes: raw });
        actions.push(FileAction::Rename { from: tmp, to: path });
        assert(storage::ops(actions@) =~= self@.persist_ops());
        actions
    }

    /// Flush the current term and vote to disk atomically; `io` is the outcome of
    /// [`PersistentState::persist_actions`].
    pub fn persist(&self, io: &Outcome) -> (result: Result<(), RaftError>)
        ensures
            error::agrees(result, persisted(io@)),
    {
        match io.fault_before(2) {
            Some(fault) => Err(RaftError::Io(fault)),
            None => Ok(()),
        }
    }

    /// Go to the term `new_term` without a vote. Returns what has to be done on
    /// disk to persist that.
    pub(crate) fn enter_term(&mut self, new_term: u64) -> (actions: Vec<FileAction>)
        ensures
            final(self)@ == old(self)@.in_term(new_term),
            storage::ops(actions@) == old(self)@.in_term(new_term).persist_ops(),
    {
        self.current_term = new_term;
        self.voted_for = None;
        self.persist_actions()
    }

    /// Vote for `candidate`. Returns what has to be done on disk to persist that.
    pub(crate) fn cast_vote(&mut self, candidate: NodeId) -> (actions: Vec<FileAction>)
        ensures
            final(self)@ == old(self)@.with_vote(candidate@),
            storage::ops(actions@) == old(self)@.with_vote(candidate@).persist_ops(),
    {
        self.voted_for = Some(candidate);
        self.persist_actions()
    }

    /// What has to be done on disk to advance to the term `new_term`.
    pub fn advance_term_actions(&self, new_term: u64) -> (actions: Vec<FileAction>)
        ensures
            storage::ops(actions@) == self@.in_term(new_term).persist_ops(),
    {
        let next = PersistentState {
            dir: self.dir.clone(),
            current_term: new_term,
            voted_for: None,
        };
        next.persist_actions()
    }

    /// Advance to a higher term and clear the vote. Persists immediately: `io` is
    /// the outcome of [`PersistentState::advance_term_actions`]. Where that failed
    /// the node goes to the term all the same.
    pub fn advance_term(&mut self, new_term: u64, io: &Outcome) -> (result: Result<(), RaftError>)
        ensures
            final(self)@ == old(self)@.in_term(new_term),
            error::agrees(result, persisted(io@)),
    {
        self.current_term = new_term;
        self.voted_for = None;
        self.persist(io)
    }

    /// What has to be done on disk to record a vote for `candidate`.
    pub fn record_vote_actions(&self, candidate: &NodeId) -> (actions: Vec<FileAction>)
        ensures
            storage::ops(actions@) == self@.with_vote(candidate@).persist_ops(),
    {
        let next = PersistentState {
            dir: self.dir.clone(),
            current_term: self.current_term,
            voted_for: Some(candidate.clone()),
        };
        next.persist_actions()
    }

    /// Record a vote for `candidate` in the current term. Persists immediately: `io`
    /// is the outcome of [`PersistentState::record_vote_actions`]. Where that failed
    /// the vote stands all the same.
    pub fn record_vote(&mut self, candidate: NodeId, io: &Outcome) -> (result: Result<
        (),
        RaftError,
    >)
        ensures
            final(self)@ == old(self)@.with_vote(candidate@),
            error::agrees(result, persisted(io@)),
    {
        self.voted_for = Some(candidate);
        self.persist(io)
    }
}

// ─── Laws ────────────────────────────────────────────────────────────────────

/// A vote as a file can state it: an empty name is no vote.
pub open spec fn stated_vote(voted_for: Option<Seq<char>>) -> Option<Seq<char>> {
    match voted_for {
        Some(name) if name.len() > 0 => Some(name),
        _ => None,
    }
}

/// Reading back what was written gives the same term and the same vote, for
/// every name whose length the file can state; an empty name reads back as no
/// vote.
pub proof fn state_reads_back(term: u64, voted_for: Option<Seq<char>>)
    requires
        vote_bytes(voted_for).len() <= u32::MAX,
    ensures
        decoded(encoded(term, voted_for)) == (term, stated_vote(voted_for)),
{
    let name = vote_bytes(voted_for);
    let raw = encoded(term, voted_for);
    bytes::lemma_le_bytes_len(term as nat, 8);
    bytes::lemma_le_bytes_len(name.len(), 4);
    bytes::lemma_byte_range_values();
    bytes::lemma_le_roundtrip(term as nat, 8);
    bytes::lemma_le_roundtrip(name.len(), 4);
    assert(raw.subrange(0, 8) =~= bytes::le_bytes(term as nat, 8));
    assert(raw.subrange(8, 12) =~= bytes::le_bytes(name.len(), 4));
    assert(raw.subrange(12, 12 + name.len() as int) =~= name);
    match voted_for {
        Some(chars) => {
            utf8::encode_utf8_valid_utf8(chars);
            utf8::encode_utf8_decode_utf8(chars);
            if name.len() == 0 {
                assert(name =~= Seq::<u8>::empty());
                assert(utf8::decode_utf8(name).len() == 0);
            }
            if chars.len() == 0 {
                assert(chars =~= Seq::<char>::empty());
                assert(name.len() == 0);
            }
        },
        None => {},
    }
}

/// A state file that was cut short states its term without a vote, or where not even
/// its header is there nothing at all; it never states a vote that was not cast.
pub proof fn cut_state_file_states_no_vote(term: u64, voted_for: Option<Seq<char>>, kept: int)
    requires
        vote_bytes(voted_for).len() <= u32::MAX,
        0 <= kept < encoded(term, voted_for).len(),
    ensures
        decoded(encoded(term, voted_for).take(kept)) == if kept < 12 {
            (0u64, None::<Seq<char>>)
        } else {
            (term, None::<Seq<char>>)
        },
{
    let name = vote_bytes(voted_for);
    let raw = encoded(term, voted_for);
    let part = raw.take(kept);
    bytes::lemma_le_bytes_len(term as nat, 8);
    bytes::lemma_le_bytes_len(name.len(), 4);
    bytes::lemma_byte_range_values();
    bytes::lemma_le_roundtrip(term as nat, 8);
    bytes::lemma_le_roundtrip(name.len(), 4);
    if kept >= 12 {
        assert(part.subrange(0, 8) =~= bytes::le_bytes(term as nat, 8));
        assert(part.subrange(8, 12) =~= bytes::le_bytes(name.len(), 4));
    }
}

proof fn lemma_paths_differ(dir: Seq<char>)
    ensures
        file_path(dir) != temp_path(dir),
{
    reveal_strlit("raft_state.bin");
    reveal_strlit("raft_state.tmp");
    if file_path(dir) == temp_path(dir) {
        text::lemma_joined_injective(dir, "raft_state.bin"@, "raft_state.tmp"@);
        assert("raft_state.bin"@[11] == 'b');
        assert("raft_state.tmp"@[11] == 't');
    }
}

/// A persisted term and vote are what the next start loads.
pub proof fn persisted_state_is_reloaded(s: StateView, disk: Disk)
    requires
        vote_bytes(s.voted_for).len() <= u32::MAX,
    ensures
        loaded(
            storage::on_disk(storage::all_applied(disk, s.persist_ops()), file_path(s.dir)),
        ) == Ok::<(u64, Option<Seq<char>>), RaftErrorView>(
            (s.current_term, stated_vote(s.voted_for)),
        ),
{
    let list = s.persist_ops();
    reveal_with_fuel(storage::all_applied, 3);
    assert(list.drop_last().last() == list[0]);
    assert(list.drop_last().drop_last() =~= Seq::<FileOp>::empty());
    state_reads_back(s.current_term, s.voted_for);
}

/// A crash while the state is persisted leaves the file as it was or as it was
/// meant to be, never anything in between.
pub proof fn state_survives_a_crash(s: StateView, disk: Disk, after: Disk)
    requires
        storage::crashed(disk, s.persist_ops(), after),
    ensures
        ({
            let path = file_path(s.dir);
            let done = storage::all_applied(disk, s.persist_ops());
            storage::same_file(after, disk, path) || storage::same_file(after, done, path)
        }),
{
    lemma_paths_differ(s.dir);
    storage::lemma_replacement_is_atomic(
        disk,
        temp_path(s.dir),
        file_path(s.dir),
        s.persist_ops(),
        after,
    );
}

/// A state file is the term in eight bytes, the length of the name voted for in four,
/// and the name; where there is no vote, the length is 0 and no name follows.
pub proof fn state_is_term_length_name(term: u64, name: Seq<char>)
    ensures
        encoded(term, Some(name)) == bytes::le_bytes(term as nat, 8) + bytes::le_bytes(
            utf8::encode_utf8(name).len(),
            4,
        ) + utf8::encode_utf8(name),
        encoded(term, None) == bytes::le_bytes(term as nat, 8) + bytes::le_bytes(0, 4),
{
}

/// What a state file states: a file under twelve bytes is term 0 without a vote; any
/// other states its term, and a vote exactly where the length is not 0, as many bytes
/// follow, and they are UTF-8. That vote is the name whose bytes they are.
pub proof fn vote_is_read_where_it_is_whole(raw: Seq<u8>)
    ensures
        ({
            let (term, vote) = decoded(raw);
            let len = bytes::le_value(raw.subrange(8, 12)) as int;
            if raw.len() < 12 {
                term == 0 && vote is None
            } else {
                &&& term == bytes::le_value(raw.subrange(0, 8))
                &&& (vote is Some <==> 0 < len && 12 + len <= raw.len() && utf8::valid_utf8(
                    raw.subrange(12, 12 + len),
                ))
                &&& vote is Some ==> utf8::encode_utf8(vote->0) == raw.subrange(12, 12 + len)
            }
        }),
{
    if raw.len() >= 12 {
        let head = raw.subrange(0, 8);
        bytes::lemma_le_value_bound(head);
        bytes::lemma_le_value_bound(raw.subrange(8, 12));
        bytes::lemma_byte_range_values();
        let len = bytes::le_value(raw.subrange(8, 12)) as int;
        if 0 < len && 12 + len <= raw.len() && utf8::valid_utf8(raw.subrange(12, 12 + len)) {
            utf8::decode_utf8_encode_utf8(raw.subrange(12, 12 + len));
        }
    }
}

/// A missing file is term 0 without a vote; one that cannot be read is an error.
pub proof fn missing_state_is_the_first_term(raw: Seq<u8>, fault: FaultView)
    ensures
        loaded(Ok(raw)) == Ok::<(u64, Option<Seq<char>>), RaftErrorView>(decoded(raw)),
        fault is NotFound ==> loaded(Err(fault)) == Ok::<(u64, Option<Seq<char>>), RaftErrorView>(
            (0, None),
        ),
        !(fault is NotFound) ==> loaded(Err(fault)) == Err::<
            (u64, Option<Seq<char>>),
            RaftErrorView,
        >(RaftErrorView::Io(fault)),
{
}

/// The state is written to a file beside the state file, which it replaces; it is
/// stored unless one of these two steps fails.
pub proof fn state_is_written_beside_and_renamed(s: StateView, at: int, fault: FaultView)
    ensures
        ({
            let tmp = text::joined(s.dir, "raft_state.tmp"@);
            let kept = text::joined(s.dir, "raft_state.bin"@);
            let list = s.persist_ops();
            &&& list.len() == 2
            &&& list[0] == FileOp::Write(tmp, encoded(s.current_term, s.voted_for))
            &&& list[1] == FileOp::Rename(tmp, kept)
        }),
        persisted(OutcomeView::Done) is Ok,
        at < 2 ==> persisted(OutcomeView::Failed(at, fault)) == Err::<(), RaftErrorView>(
            RaftErrorView::Io(fault),
        ),
        at >= 2 ==> persisted(OutcomeView::Failed(at, fault)) is Ok,
{
}

/// A new term starts without a vote, and a vote is given in the term at hand.
pub proof fn new_term_has_no_vote(s: StateView, term: u64, candidate: Seq<char>)
    ensures
        s.in_term(term).current_term == term,
        s.in_term(term).voted_for is None,
        s.in_term(term).dir == s.dir,
        s.with_vote(candidate).current_term == s.current_term,
        s.with_vote(candidate).voted_for == Some(candidate),
        s.with_vote(candidate).dir == s.dir,
{
}

} // verus!
