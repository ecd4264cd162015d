//! The boundary to the file system.
//!
//! The engine never touches a file itself. An operation that needs the disk
//! comes in two halves: one says which [`FileAction`]s to perform, in order,
//! stopping at the first failure; the other takes the [`Outcome`] of that and
//! moves the in-memory state on. What an operation has to read is handed to it
//! as [`Files`].
use vstd::prelude::*;

verus! {

// ─── Faults ──────────────────────────────────────────────────────────────────

/// Why a file could not be read or written.
#[derive(Debug)]
pub enum IoFault {
    /// There is no file at that path.
    NotFound,
    /// The file was read, but its contents make no sense.
    InvalidData(String),
    /// Anything else, in the words of the operating system.
    Other(String),
}

/// An [`IoFault`] with its text as a sequence of characters.
pub enum FaultView {
    NotFound,
    InvalidData(Seq<char>),
    Other(Seq<char>),
}

impl View for IoFault {
    type V = FaultView;

    open spec fn view(&self) -> FaultView {
        match self {
            IoFault::NotFound => FaultView::NotFound,
            IoFault::InvalidData(s) => FaultView::InvalidData(s@),
            IoFault::Other(s) => FaultView::Other(s@),
        }
    }
}

impl Clone for IoFault {
    fn clone(&self) -> (copy: Self)
        ensures
            copy@ == self@,
    {
        match self {
            IoFault::NotFound => IoFault::NotFound,
            IoFault::InvalidData(s) => IoFault::InvalidData(s.clone()),
            IoFault::Other(s) => IoFault::Other(s.clone()),
        }
    }
}

// ─── Actions ─────────────────────────────────────────────────────────────────

/// One step that the engine asks of the file system.
#[derive(Debug)]
pub enum FileAction {
    /// Create an empty file and keep it open for appending; fail if the file exists.
    CreateNew { path: String },
    /// Open an existing file for appending.
    OpenAppend { path: String },
    /// Write all of `bytes` behind the end of an open file, through its buffer if it
    /// has one. Where that fails, what was written of them is taken back.
    Append { path: String, bytes: Vec<u8> },
    /// Hand the buffer of an open file to the operating system.
    Flush { path: String },
    /// Make the file durable on the storage device, buffer included.
    Sync { path: String },
    /// Write a whole file, replacing what was there.
    Write { path: String, bytes: Vec<u8> },
    /// Move a file over another, atomically.
    Rename { from: String, to: String },
    /// Delete a file.
    Remove { path: String },
    /// Cut a file back to its first `len` bytes.
    Shorten { path: String, len: u64 },
}

/// A [`FileAction`] in terms of mathematical sequences.
pub enum FileOp {
    CreateNew(Seq<char>),
    OpenAppend(Seq<char>),
    Append(Seq<char>, Seq<u8>),
    Flush(Seq<char>),
    Sync(Seq<char>),
    Write(Seq<char>, Seq<u8>),
    Rename(Seq<char>, Seq<char>),
    Remove(Seq<char>),
    Shorten(Seq<char>, int),
}

impl View for FileAction {
    type V = FileOp;

    open spec fn view(&self) -> FileOp {
        match self {
            FileAction::CreateNew { path } => FileOp::CreateNew(path@),
            FileAction::OpenAppend { path } => FileOp::OpenAppend(path@),
            FileAction::Append { path, bytes } => FileOp::Append(path@, bytes@),
            FileAction::Flush { path } => FileOp::Flush(path@),
            FileAction::Sync { path } => FileOp::Sync(path@),
            FileAction::Write { path, bytes } => FileOp::Write(path@, bytes@),
            FileAction::Rename { from, to } => FileOp::Rename(from@, to@),
            FileAction::Remove { path } => FileOp::Remove(path@),
            FileAction::Shorten { path, len } => FileOp::Shorten(path@, *len as int),
        }
    }
}

/// The operations that a list of actions stands for.
pub open spec fn ops(actions: Seq<FileAction>) -> Seq<FileOp> {
    Seq::new(actions.len(), |i: int| actions[i]@)
}

pub proof fn lemma_ops_push(actions: Seq<FileAction>, action: FileAction)
    ensures
        ops(actions.push(action)) == ops(actions).push(action@),
{
    assert(ops(actions.push(action)) =~= ops(actions).push(action@));
}

pub proof fn lemma_ops_concat(a: Seq<FileAction>, b: Seq<FileAction>)
    ensures
        ops(a + b) == ops(a) + ops(b),
{
    assert(ops(a + b) =~= ops(a) + ops(b));
}

/// The operations of lists of actions that are performed independently of each
/// other: a failure in one does not keep the next from being tried.
pub open spec fn batches(lists: Seq<Vec<FileAction>>) -> Seq<Seq<FileOp>> {
    Seq::new(lists.len(), |i: int| ops(lists[i]@))
}

/// How a list of actions went.
#[derive(Debug)]
pub enum Outcome {
    /// Every action succeeded.
    Done,
    /// The actions before position `at` succeeded, the one at `at` failed, and
    /// none behind it was tried. A position behind the list is no failure.
    Failed { at: usize, fault: IoFault },
}

/// An [`Outcome`] without machine limits.
pub enum OutcomeView {
    Done,
    Failed(int, FaultView),
}

impl View for Outcome {
    type V = OutcomeView;

    open spec fn view(&self) -> OutcomeView {
        match self {
            Outcome::Done => OutcomeView::Done,
            Outcome::Failed { at, fault } => OutcomeView::Failed(*at as int, fault@),
        }
    }
}

impl OutcomeView {
    /// The fault of the action at position `i`, if that is the one that failed.
    pub open spec fn fault_at(self, i: int) -> Option<FaultView> {
        match self {
            OutcomeView::Done => None,
            OutcomeView::Failed(at, fault) => if at == i {
                Some(fault)
            } else {
                None
            },
        }
    }

    /// The first failure among positions `0 .. n`, if there is one.
    pub open spec fn fault_before(self, n: int) -> Option<FaultView> {
        match self {
            OutcomeView::Done => None,
            OutcomeView::Failed(at, fault) => if at < n {
                Some(fault)
            } else {
                None
            },
        }
    }

    /// The outcome of what is left of the list behind its first `n` actions.
    pub open spec fn skip(self, n: int) -> OutcomeView {
        match self {
            OutcomeView::Done => OutcomeView::Done,
            OutcomeView::Failed(at, fault) => OutcomeView::Failed(at - n, fault),
        }
    }
}

impl Outcome {
    /// The fault of the action at position `i`, if that is the one that failed.
    pub fn fault_at(&self, i: usize) -> (fault: Option<IoFault>)
        ensures
            match fault {
                Some(f) => self@.fault_at(i as int) == Some(f@),
                None => self@.fault_at(i as int) is None,
            },
    {
        match self {
            Outcome::Done => None,
            Outcome::Failed { at, fault } => if *at == i {
                Some(fault.clone())
            } else {
                None
            },
        }
    }

    /// The fault of the first `n` actions, if one of them failed.
    pub fn fault_before(&self, n: usize) -> (fault: Option<IoFault>)
        ensures
            match fault {
                Some(f) => self@.fault_before(n as int) == Some(f@),
                None => self@.fault_before(n as int) is None,
            },
    {
        match self {
            Outcome::Done => None,
            Outcome::Failed { at, fault } => if *at < n {
                Some(fault.clone())
            } else {
                None
            },
        }
    }

    /// The outcome of what is left behind the first `n` actions, which all succeeded.
    pub fn skip(&self, n: usize) -> (rest: Outcome)
        requires
            self@.fault_before(n as int) is None,
        ensures
            rest@ == self@.skip(n as int),
    {
        match self {
            Outcome::Done => Outcome::Done,
            Outcome::Failed { at, fault } => Outcome::Failed {
                at: *at - n,
                fault: fault.clone(),
            },
        }
    }
}

// ─── Files read for an operation ─────────────────────────────────────────────

/// What was found at each path that was read, in the order of reading.
pub struct Files {
    items: Vec<(String, Result<Vec<u8>, IoFault>)>,
}

/// A file's bytes, or why they could not be had.
pub type Contents = Result<Seq<u8>, FaultView>;

/// [`Files`] as a sequence of paths and contents.
pub type FilesView = Seq<(Seq<char>, Contents)>;

pub open spec fn contents_view(r: Result<Vec<u8>, IoFault>) -> Contents {
    match r {
        Ok(bytes) => Ok(bytes@),
        Err(fault) => Err(fault@),
    }
}

impl View for Files {
    type V = FilesView;

    closed spec fn view(&self) -> FilesView {
        Seq::new(
            self.items@.len(),
            |i: int| (self.items@[i].0@, contents_view(self.items@[i].1)),
        )
    }
}

/// What `files` holds for `path`: the first item of that path, and a missing
/// file where there is none.
pub open spec fn lookup(files: FilesView, path: Seq<char>) -> Contents
    decreases files.len(),
{
    if files.len() == 0 {
        Err(FaultView::NotFound)
    } else if files[0].0 == path {
        files[0].1
    } else {
        lookup(files.drop_first(), path)
    }
}

/// The paths of `files`, in order.
pub open spec fn paths(files: FilesView) -> Seq<Seq<char>> {
    Seq::new(files.len(), |i: int| files[i].0)
}

/// The characters of each string of `list`.
pub open spec fn texts(list: Seq<String>) -> Seq<Seq<char>> {
    Seq::new(list.len(), |i: int| list[i]@)
}

impl Files {
    /// No files.
    pub fn new() -> (files: Files)
        ensures
            files@ == Seq::<(Seq<char>, Contents)>::empty(),
    {
        let files = Files { items: Vec::new() };
        assert(files@ =~= Seq::<(Seq<char>, Contents)>::empty());
        files
    }

    /// Add what was found at `path`.
    pub fn add(&mut self, path: String, contents: Result<Vec<u8>, IoFault>)
        ensures
            final(self)@ == old(self)@.push((path@, contents_view(contents))),
    {
        self.items.push((path, contents));
        assert(self@ =~= old(self)@.push((path@, contents_view(contents))));
    }

    /// The bytes of the file at `path`, or why they could not be had.
    pub fn get(&self, path: &String) -> (contents: Result<&Vec<u8>, IoFault>)
        ensures
            match contents {
                Ok(bytes) => lookup(self@, path@) == Ok::<Seq<u8>, FaultView>(bytes@),
                Err(fault) => lookup(self@, path@) == Err::<Seq<u8>, FaultView>(fault@),
            },
    {
        let mut i: usize = 0;
        assert(self@.skip(0) =~= self@);
        while i < self.items.len()
            invariant
                i <= self.items@.len(),
                lookup(self@, path@) == lookup(self@.skip(i as int), path@),
            decreases self.items@.len() - i,
        {
            let ghost rest = self@.skip(i as int);
            assert(rest[0] == self@[i as int]);
            if self.items[i].0 == *path {
                return match &self.items[i].1 {
                    Ok(bytes) => Ok(bytes),
                    Err(fault) => Err(fault.clone()),
                };
            }
            assert(rest.drop_first() =~= self@.skip(i + 1));
            i = i + 1;
        }
        Err(IoFault::NotFound)
    }

    /// All paths, in order.
    pub fn paths(&self) -> (list: Vec<String>)
        ensures
            texts(list@) == paths(self@),
    {
        let mut list: Vec<String> = Vec::new();
        let mut i: usize = 0;
        while i < self.items.len()
            invariant
                i <= self.items@.len(),
                list@.len() == i,
                forall|j: int| 0 <= j < i ==> (#[trigger] list@[j])@ == self.items@[j].0@,
            decreases self.items@.len() - i,
        {
            list.push(self.items[i].0.clone());
            i = i + 1;
        }
        assert(texts(list@) =~= paths(self@));
        list
    }
}

// ─── The disk as a map ───────────────────────────────────────────────────────

/// The files of a directory tree: path to bytes.
pub type Disk = Map<Seq<char>, Seq<u8>>;

/// The disk after `op` succeeded.
pub open spec fn applied(disk: Disk, op: FileOp) -> Disk {
    match op {
        FileOp::CreateNew(path) => disk.insert(path, Seq::empty()),
        FileOp::OpenAppend(_) => disk,
        FileOp::Append(path, bytes) => disk.insert(path, disk[path] + bytes),
        FileOp::Flush(_) => disk,
        FileOp::Sync(_) => disk,
        FileOp::Write(path, bytes) => disk.insert(path, bytes),
        FileOp::Rename(from, to) => disk.remove(from).insert(to, disk[from]),
        FileOp::Remove(path) => disk.remove(path),
        FileOp::Shorten(path, len) => disk.insert(path, disk[path].take(len)),
    }
}

/// The disk after all of `list` succeeded, in order.
pub open spec fn all_applied(disk: Disk, list: Seq<FileOp>) -> Disk
    decreases list.len(),
{
    if list.len() == 0 {
        disk
    } else {
        applied(all_applied(disk, list.drop_last()), list.last())
    }
}

/// `after` is a disk that an interruption in the middle of `op` can leave.
///
/// A file that is being written may hold any bytes; an append may have got any
/// prefix of its bytes through; anything else has happened or it has not.
pub open spec fn interrupted(disk: Disk, op: FileOp, after: Disk) -> bool {
    match op {
        FileOp::Append(path, bytes) => exists|n: int|
            0 <= n <= bytes.len() && after == disk.insert(
                path,
                disk[path] + #[trigger] bytes.take(n),
            ),
        FileOp::Write(path, _) => after == disk || exists|partial: Seq<u8>|
            after == #[trigger] disk.insert(path, partial),
        _ => after == disk || after == applied(disk, op),
    }
}

/// `op` empties the buffer that `previous` has filled.
pub open spec fn settles(op: FileOp, previous: FileOp) -> bool {
    previous matches FileOp::Append(path, _) && (op == FileOp::Flush(path) || op == FileOp::Sync(
        path,
    ))
}

/// `after` is a disk that is left where the process stops at position `k` of
/// `list`: the operations before it succeeded, and it was interrupted. An append
/// whose buffer was being emptied may be there in part.
pub open spec fn stopped_at(disk: Disk, list: Seq<FileOp>, k: int, after: Disk) -> bool {
    ||| interrupted(all_applied(disk, list.take(k)), list[k], after)
    ||| {
        &&& k > 0
        &&& settles(list[k], list[k - 1])
        &&& interrupted(all_applied(disk, list.take(k - 1)), list[k - 1], after)
    }
}

/// `after` is a disk that a crash at some point of `list` can leave. What the
/// operating system has been handed counts as written.
pub open spec fn crashed(disk: Disk, list: Seq<FileOp>, after: Disk) -> bool {
    ||| after == all_applied(disk, list)
    ||| exists|k: int| 0 <= k < list.len() && #[trigger] stopped_at(disk, list, k, after)
}

/// `after` is a disk that is left where the operation at position `at` of `list`
/// fails and the process goes on: the operations before it succeeded, and those
/// behind it were not tried. A file that was being written whole may hold any
/// bytes; anything else that failed has not happened, an append included, which is
/// taken back. What is in the buffer of an open file counts as written.
pub open spec fn failed_at(disk: Disk, list: Seq<FileOp>, at: int, after: Disk) -> bool {
    let before = all_applied(disk, list.take(at));
    &&& 0 <= at < list.len()
    &&& match list[at] {
        FileOp::Write(path, _) => after == before || exists|partial: Seq<u8>|
            after == #[trigger] before.insert(path, partial),
        _ => after == before,
    }
}

/// What a failure leaves, a crash at the same point can leave too.
pub proof fn failure_leaves_what_a_crash_can(
    disk: Disk,
    list: Seq<FileOp>,
    at: int,
    after: Disk,
)
    requires
        failed_at(disk, list, at, after),
        list[at] matches FileOp::Append(path, _) ==> all_applied(
            disk,
            list.take(at),
        ).contains_key(path),
    ensures
        crashed(disk, list, after),
{
    let before = all_applied(disk, list.take(at));
    if let FileOp::Append(path, bytes) = list[at] {
        assert(before[path] + bytes.take(0) =~= before[path]);
        assert(before.insert(path, before[path]) =~= before);
    }
    assert(stopped_at(disk, list, at, after));
}

/// A failure in the middle of two lists is a failure in the first or in the second.
pub proof fn lemma_failed_concat(
    disk: Disk,
    a: Seq<FileOp>,
    b: Seq<FileOp>,
    at: int,
    after: Disk,
)
    requires
        failed_at(disk, a + b, at, after),
    ensures
        at < a.len() ==> failed_at(disk, a, at, after),
        at >= a.len() ==> failed_at(all_applied(disk, a), b, at - a.len(), after),
{
    let list = a + b;
    if at < a.len() {
        assert(list.take(at) =~= a.take(at));
    } else {
        assert(list.take(at) =~= a + b.take(at - a.len()));
        lemma_all_applied_concat(disk, a, b.take(at - a.len()));
    }
}

/// The file at `path` is the same on both disks, or missing from both.
pub open spec fn same_file(a: Disk, b: Disk, path: Seq<char>) -> bool {
    a.contains_key(path) == b.contains_key(path) && (a.contains_key(path) ==> a[path] == b[path])
}

/// Operations that prepare the file at `tmp` and then move it over `path`.
pub open spec fn is_replacement(list: Seq<FileOp>, tmp: Seq<char>, path: Seq<char>) -> bool {
    &&& list.len() > 0 ==> list.last() == FileOp::Rename(tmp, path)
    &&& forall|i: int|
        0 <= i < list.len() - 1 ==> match #[trigger] list[i] {
            FileOp::Write(p, _) => p == tmp,
            FileOp::Sync(p) => p == tmp,
            _ => false,
        }
}

/// Replacing a file by way of a temporary one is atomic: a crash leaves the old
/// file or the new one.
pub proof fn lemma_replacement_is_atomic(
    disk: Disk,
    tmp: Seq<char>,
    path: Seq<char>,
    list: Seq<FileOp>,
    after: Disk,
)
    requires
        tmp != path,
        is_replacement(list, tmp, path),
        crashed(disk, list, after),
    ensures
        same_file(after, disk, path) || same_file(after, all_applied(disk, list), path),
{
    if after != all_applied(disk, list) {
        let k = choose|k: int| 0 <= k < list.len() && #[trigger] stopped_at(disk, list, k, after);
        assert(list[k] == list.last() || k < list.len() - 1);
        if k > 0 {
            assert(!(list[k - 1] is Append));
        }
        lemma_preparation_spares_target(disk, tmp, path, list, k);
        if k == list.len() - 1 {
            assert(list.take(k) =~= list.drop_last());
        }
    }
}

proof fn lemma_preparation_spares_target(
    disk: Disk,
    tmp: Seq<char>,
    path: Seq<char>,
    list: Seq<FileOp>,
    k: int,
)
    requires
        tmp != path,
        is_replacement(list, tmp, path),
        0 <= k < list.len(),
    ensures
        same_file(all_applied(disk, list.take(k)), disk, path),
    decreases k,
{
    if k > 0 {
        lemma_preparation_spares_target(disk, tmp, path, list, k - 1);
        assert(list.take(k).drop_last() =~= list.take(k - 1));
        assert(list.take(k).last() == list[k - 1]);
    } else {
        assert(list.take(0) =~= Seq::<FileOp>::empty());
    }
}

/// `files` was read from `disk`: every path on it with its bytes, and no other.
pub open spec fn read_from_disk(files: FilesView, disk: Disk) -> bool {
    &&& forall|i: int|
        0 <= i < files.len() ==> disk.contains_key((#[trigger] files[i]).0) && files[i].1 == Ok::<
            Seq<u8>,
            FaultView,
        >(disk[files[i].0])
    &&& forall|i: int, j: int|
        0 <= i < j < files.len() ==> (#[trigger] files[i]).0 != (#[trigger] files[j]).0
    &&& forall|path: Seq<char>| #[trigger]
        disk.contains_key(path) ==> exists|i: int|
            0 <= i < files.len() && (#[trigger] files[i]).0 == path
}

/// A directory that was read lists no path twice.
pub proof fn lemma_paths_are_distinct(files: FilesView, disk: Disk)
    requires
        read_from_disk(files, disk),
    ensures
        paths(files).no_duplicates(),
{
    assert forall|i: int, j: int|
        0 <= i < paths(files).len() && 0 <= j < paths(files).len() && i != j implies paths(
        files,
    )[i] != paths(files)[j] by {
        if i < j {
            assert(files[i].0 != files[j].0);
        } else {
            assert(files[j].0 != files[i].0);
        }
    }
}

/// What is on `disk` at `path`.
pub open spec fn on_disk(disk: Disk, path: Seq<char>) -> Contents {
    if disk.contains_key(path) {
        Ok(disk[path])
    } else {
        Err(FaultView::NotFound)
    }
}

/// `files` tell of `path` what is on `disk`.
pub open spec fn shows(files: FilesView, disk: Disk, path: Seq<char>) -> bool {
    lookup(files, path) == on_disk(disk, path)
}

/// A lookup in files read from a disk gives what is on the disk.
pub proof fn lemma_lookup_on_disk(files: FilesView, disk: Disk, path: Seq<char>)
    requires
        read_from_disk(files, disk),
    ensures
        shows(files, disk, path),
        disk.contains_key(path) ==> lookup(files, path) == Ok::<Seq<u8>, FaultView>(disk[path]),
        !disk.contains_key(path) ==> lookup(files, path) == Err::<Seq<u8>, FaultView>(
            FaultView::NotFound,
        ),
{
    if disk.contains_key(path) {
        let i = choose|i: int| 0 <= i < files.len() && (#[trigger] files[i]).0 == path;
        lemma_lookup_hit(files, path, i);
    } else {
        lemma_lookup_miss(files, path);
    }
}

proof fn lemma_lookup_hit(files: FilesView, path: Seq<char>, i: int)
    requires
        0 <= i < files.len(),
        files[i].0 == path,
        forall|j: int| 0 <= j < i ==> (#[trigger] files[j]).0 != path,
    ensures
        lookup(files, path) == files[i].1,
    decreases files.len(),
{
    if i > 0 {
        assert(files[0].0 != path);
        let rest = files.drop_first();
        assert(rest[i - 1] == files[i]);
        assert forall|j: int| 0 <= j < i - 1 implies (#[trigger] rest[j]).0 != path by {
            assert(rest[j] == files[j + 1]);
        }
        lemma_lookup_hit(rest, path, i - 1);
    }
}

proof fn lemma_lookup_miss(files: FilesView, path: Seq<char>)
    requires
        forall|j: int| 0 <= j < files.len() ==> (#[trigger] files[j]).0 != path,
    ensures
        lookup(files, path) == Err::<Seq<u8>, FaultView>(FaultView::NotFound),
    decreases files.len(),
{
    if files.len() > 0 {
        let rest = files.drop_first();
        assert(files[0].0 != path);
        assert forall|j: int| 0 <= j < rest.len() implies (#[trigger] rest[j]).0 != path by {
            assert(rest[j] == files[j + 1]);
        }
        lemma_lookup_miss(rest, path);
    }
}

pub proof fn lemma_all_applied_concat(disk: Disk, a: Seq<FileOp>, b: Seq<FileOp>)
    ensures
        all_applied(disk, a + b) == all_applied(all_applied(disk, a), b),
    decreases b.len(),
{
    if b.len() == 0 {
        assert(a + b =~= a);
    } else {
        assert((a + b).drop_last() =~= a + b.drop_last());
        assert((a + b).last() == b.last());
        lemma_all_applied_concat(disk, a, b.drop_last());
    }
}

/// A crash in the middle of two lists is a crash in the first or in the second.
pub proof fn lemma_crashed_concat(disk: Disk, a: Seq<FileOp>, b: Seq<FileOp>, after: Disk)
    requires
        crashed(disk, a + b, after),
    ensures
        crashed(disk, a, after) || crashed(all_applied(disk, a), b, after),
{
    lemma_all_applied_concat(disk, a, b);
    if after != all_applied(disk, a + b) {
        let list = a + b;
        let k = choose|k: int| 0 <= k < list.len() && #[trigger] stopped_at(disk, list, k, after);
        let j = k - a.len();
        if k < a.len() {
            assert(list.take(k) =~= a.take(k));
            assert(list[k] == a[k]);
            if k > 0 {
                assert(list.take(k - 1) =~= a.take(k - 1));
                assert(list[k - 1] == a[k - 1]);
            }
            assert(stopped_at(disk, a, k, after));
        } else if interrupted(all_applied(disk, list.take(k)), list[k], after) {
            assert(list.take(k) =~= a + b.take(j));
            assert(list[k] == b[j]);
            lemma_all_applied_concat(disk, a, b.take(j));
            assert(stopped_at(all_applied(disk, a), b, j, after));
        } else if j == 0 {
            assert(list.take(k - 1) =~= a.take(k - 1));
            assert(list[k - 1] == a[k - 1]);
            assert(stopped_at(disk, a, k - 1, after));
        } else {
            assert(list.take(k - 1) =~= a + b.take(j - 1));
            assert(list[k] == b[j] && list[k - 1] == b[j - 1]);
            lemma_all_applied_concat(disk, a, b.take(j - 1));
            assert(stopped_at(all_applied(disk, a), b, j, after));
        }
    }
}

/// Removing files leaves the others as they are.
pub proof fn lemma_all_removed(disk: Disk, list: Seq<FileOp>)
    requires
        forall|i: int| 0 <= i < list.len() ==> (#[trigger] list[i]) is Remove,
    ensures
        forall|path: Seq<char>| #[trigger]
            all_applied(disk, list).contains_key(path) <==> disk.contains_key(path)
                && !list.contains(FileOp::Remove(path)),
        forall|path: Seq<char>| #[trigger]
            all_applied(disk, list).contains_key(path) ==> all_applied(disk, list)[path]
                == disk[path],
    decreases list.len(),
{
    if list.len() > 0 {
        let head = list.drop_last();
        assert forall|i: int| 0 <= i < head.len() implies (#[trigger] head[i]) is Remove by {
            assert(head[i] == list[i]);
        }
        lemma_all_removed(disk, head);
        assert(list[list.len() - 1] is Remove);
        assert forall|path: Seq<char>| #[trigger]
            list.contains(FileOp::Remove(path)) <==> head.contains(FileOp::Remove(path))
                || list.last() == FileOp::Remove(path) by {
            let op = FileOp::Remove(path);
            if head.contains(op) {
                let i = choose|i: int| 0 <= i < head.len() && head[i] == op;
                assert(list[i] == op);
            }
            if list.contains(op) {
                let i = choose|i: int| 0 <= i < list.len() && list[i] == op;
                if i < head.len() {
                    assert(head[i] == op);
                }
            }
            if list.last() == op {
                assert(list[list.len() - 1] == op);
            }
        }
        let before = all_applied(disk, head);
        let gone = list.last()->Remove_0;
        assert(all_applied(disk, list) == before.remove(gone));
        assert forall|path: Seq<char>| #[trigger]
            all_applied(disk, list).contains_key(path) <==> disk.contains_key(path)
                && !list.contains(FileOp::Remove(path)) by {
            assert(before.contains_key(path) <==> disk.contains_key(path) && !head.contains(
                FileOp::Remove(path),
            ));
        }
        assert forall|path: Seq<char>| #[trigger]
            all_applied(disk, list).contains_key(path) implies all_applied(disk, list)[path]
            == disk[path] by {
            assert(before.contains_key(path));
        }
    }
}

/// `op` changes the file at `path`, if it changes anything.
pub open spec fn touches(op: FileOp, path: Seq<char>) -> bool {
    match op {
        FileOp::CreateNew(p) => p == path,
        FileOp::Append(p, _) => p == path,
        FileOp::Write(p, _) => p == path,
        FileOp::Rename(from, to) => from == path || to == path,
        FileOp::Remove(p) => p == path,
        FileOp::Shorten(p, _) => p == path,
        _ => false,
    }
}

/// Operations leave alone what they do not touch.
pub proof fn lemma_applied_spares(disk: Disk, list: Seq<FileOp>, path: Seq<char>)
    requires
        forall|i: int| 0 <= i < list.len() ==> !touches(#[trigger] list[i], path),
    ensures
        same_file(all_applied(disk, list), disk, path),
    decreases list.len(),
{
    if list.len() > 0 {
        let head = list.drop_last();
        assert forall|i: int| 0 <= i < head.len() implies !touches(#[trigger] head[i], path) by {
            assert(head[i] == list[i]);
        }
        lemma_applied_spares(disk, head, path);
        assert(!touches(list[list.len() - 1], path));
    }
}

/// So does a crash in the middle of them.
pub proof fn lemma_crash_spares(disk: Disk, list: Seq<FileOp>, after: Disk, path: Seq<char>)
    requires
        crashed(disk, list, after),
        forall|i: int| 0 <= i < list.len() ==> !touches(#[trigger] list[i], path),
    ensures
        same_file(after, disk, path),
{
    lemma_applied_spares(disk, list, path);
    if after != all_applied(disk, list) {
        let k = choose|k: int| 0 <= k < list.len() && #[trigger] stopped_at(disk, list, k, after);
        let j = if interrupted(all_applied(disk, list.take(k)), list[k], after) {
            k
        } else {
            k - 1
        };
        let head = list.take(j);
        assert forall|i: int| 0 <= i < head.len() implies !touches(#[trigger] head[i], path) by {
            assert(head[i] == list[i]);
        }
        lemma_applied_spares(disk, head, path);
        assert(!touches(list[j], path));
    }
}

// ─── What a list of actions came to ──────────────────────────────────────────

/// The failure of a list is that of the one action that failed: among the first `n`
/// where its position is below `n`, and behind the first `n` at so many less.
pub proof fn failure_is_where_it_happened(at: int, fault: FaultView, n: int, i: int)
    ensures
        OutcomeView::Done.fault_at(i) is None,
        OutcomeView::Done.fault_before(n) is None,
        OutcomeView::Done.skip(n) is Done,
        OutcomeView::Failed(at, fault).fault_at(at) == Some(fault),
        i != at ==> OutcomeView::Failed(at, fault).fault_at(i) is None,
        at < n ==> OutcomeView::Failed(at, fault).fault_before(n) == Some(fault),
        at >= n ==> OutcomeView::Failed(at, fault).fault_before(n) is None,
        OutcomeView::Failed(at, fault).skip(n).fault_at(i) == OutcomeView::Failed(
            at,
            fault,
        ).fault_at(i + n),
{
}

/// What is found under a path is the contents of its first item, and a path without an
/// item is a missing file.
pub proof fn first_item_of_a_path_is_found(files: FilesView, path: Seq<char>, i: int)
    ensures
        0 <= i < files.len() && files[i].0 == path && (forall|j: int|
            0 <= j < i ==> (#[trigger] files[j]).0 != path) ==> lookup(files, path) == files[i].1,
        (forall|j: int| 0 <= j < files.len() ==> (#[trigger] files[j]).0 != path) ==> lookup(
            files,
            path,
        ) == Err::<Seq<u8>, FaultView>(FaultView::NotFound),
    decreases files.len(),
{
    if files.len() > 0 {
        let rest = files.drop_first();
        first_item_of_a_path_is_found(rest, path, i - 1);
        assert(forall|j: int| 0 <= j < rest.len() ==> rest[j] == files[j + 1]);
        if i > 0 {
            assert(files[0].0 != path || lookup(files, path) == files[0].1);
        }
    }
}

} // verus!
