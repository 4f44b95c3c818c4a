//! Recursive directory traversal, as a state machine.
//!
//! The traversal keeps a queue of entries still to visit, breadth first, and
//! a stack of directories held back until their contents are done.  The
//! filesystem work (reading metadata and directory listings) is done by the
//! caller, which hands the results to the machine and asks it what to do
//! next.

use crate::paths::{borrowed_path, path_buf_as_path};
use std::collections::VecDeque;
use std::io;
use std::path::{Path, PathBuf};
use vstd::prelude::*;

verus! {

/// An I/O error; opaque to the contracts.
#[verifier::external_type_specification]
#[verifier::external_body]
pub struct ExIoError(io::Error);

/// The kind of a filesystem entry, as its metadata reports it.
#[derive(Debug, Clone, Copy, PartialEq, Eq, Structural)]
pub enum FileKind {
    Dir,
    File,
    Symlink,
    Other,
}

impl FileKind {
    /// Whether the entry is a directory.
    pub fn is_dir(&self) -> (r: bool)
        ensures
            r == (*self == FileKind::Dir),
    {
        match self {
            FileKind::Dir => true,
            _ => false,
        }
    }

    /// Whether the entry is a regular file.
    pub fn is_file(&self) -> (r: bool)
        ensures
            r == (*self == FileKind::File),
    {
        match self {
            FileKind::File => true,
            _ => false,
        }
    }

    /// Whether the entry is a symbolic link.
    pub fn is_symlink(&self) -> (r: bool)
        ensures
            r == (*self == FileKind::Symlink),
    {
        match self {
            FileKind::Symlink => true,
            _ => false,
        }
    }
}

/// A directory entry yielded by a walk.
#[derive(Debug)]
pub struct DirEntry {
    path: PathBuf,
    depth: usize,
    file_type: FileKind,
}

impl DirEntry {
    /// The full path of this entry.
    pub closed spec fn path_of(self) -> PathBuf {
        self.path
    }

    /// The depth of this entry relative to the root.
    pub closed spec fn depth_of(self) -> usize {
        self.depth
    }

    /// The kind of this entry.
    pub closed spec fn kind_of(self) -> FileKind {
        self.file_type
    }

    /// Returns the full path to this entry.
    pub fn path(&self) -> (r: &Path)
        ensures
            r == borrowed_path(&self.path_of()),
    {
        path_buf_as_path(&self.path)
    }

    /// Consumes this entry and returns the full path.
    pub fn into_path(self) -> (r: PathBuf)
        ensures
            r == self.path_of(),
    {
        self.path
    }

    /// Returns the kind of this entry.
    pub fn file_type(&self) -> (r: FileKind)
        ensures
            r == self.kind_of(),
    {
        self.file_type
    }

    /// Returns the depth of this entry relative to the root.
    pub fn depth(&self) -> (r: usize)
        ensures
            r == self.depth_of(),
    {
        self.depth
    }
}

/// Error type for walk operations.
#[derive(Debug)]
pub struct WalkError {
    path: Option<PathBuf>,
    inner: io::Error,
}

impl WalkError {
    /// The path where the error occurred, if one is known.
    pub closed spec fn failed_path(self) -> Option<PathBuf> {
        self.path
    }

    /// The underlying I/O error.
    pub closed spec fn cause(self) -> io::Error {
        self.inner
    }

    /// Returns the path where the error occurred, if available.
    pub fn path(&self) -> (r: Option<&Path>)
        ensures
            r == match self.failed_path() {
                Some(p) => Some(borrowed_path(&p)),
                None => None::<&Path>,
            },
    {
        match &self.path {
            Some(p) => Some(path_buf_as_path(p)),
            None => None,
        }
    }

    /// Returns the underlying IO error.
    pub fn io_error(&self) -> (r: &io::Error)
        ensures
            *r == self.cause(),
    {
        &self.inner
    }

    /// Consumes self and returns the underlying IO error.
    pub fn into_io_error(self) -> (r: io::Error)
        ensures
            r == self.cause(),
    {
        self.inner
    }
}

impl From<WalkError> for io::Error {
    fn from(e: WalkError) -> (r: io::Error) {
        e.inner
    }
}

impl vstd::std_specs::convert::FromSpecImpl<WalkError> for io::Error {
    open spec fn obeys_from_spec() -> bool {
        true
    }

    open spec fn from_spec(e: WalkError) -> io::Error {
        e.cause()
    }
}

/// The settings of a walk.
#[derive(Debug, Clone, Copy, PartialEq, Eq, Structural)]
pub struct WalkOptions {
    /// Entries shallower than this are traversed but not yielded.
    pub min_depth: usize,
    /// Entries deeper than this are neither yielded nor traversed.
    pub max_depth: usize,
    /// Whether symbolic links are followed.
    pub follow_links: bool,
    /// Whether a directory is yielded after its contents.
    pub contents_first: bool,
}

/// Builder for recursive directory traversal.
///
/// Its view is its settings; the root is `root_of`.
pub struct WalkDir {
    root: PathBuf,
    min_depth: usize,
    max_depth: usize,
    follow_links: bool,
    contents_first: bool,
}

impl View for WalkDir {
    type V = WalkOptions;

    closed spec fn view(&self) -> WalkOptions {
        WalkOptions {
            min_depth: self.min_depth,
            max_depth: self.max_depth,
            follow_links: self.follow_links,
            contents_first: self.contents_first,
        }
    }
}

impl WalkDir {
    /// The root of the walk.
    pub closed spec fn root_of(self) -> PathBuf {
        self.root
    }

    /// Returns the root of the walk.
    pub fn root(&self) -> (r: &Path)
        ensures
            r == borrowed_path(&self.root_of()),
    {
        path_buf_as_path(&self.root)
    }

    /// Create a new `WalkDir` rooted at the given path: every depth, no
    /// links followed, directories before their contents.
    pub fn new(root: PathBuf) -> (r: Self)
        ensures
            r.root_of() == root,
            r@ == (WalkOptions {
                min_depth: 0,
                max_depth: usize::MAX,
                follow_links: false,
                contents_first: false,
            }),
    {
        WalkDir { root, min_depth: 0, max_depth: usize::MAX, follow_links: false, contents_first: false }
    }

    /// Set the minimum depth of entries to yield.
    ///
    /// Entries at depths less than `min_depth` are still traversed
    /// but not yielded.
    pub fn min_depth(self, depth: usize) -> (r: Self)
        ensures
            r.root_of() == self.root_of(),
            r@ == (WalkOptions { min_depth: depth, ..self@ }),
    {
        let mut w = self;
        w.min_depth = depth;
        w
    }

    /// Set the maximum depth of entries to yield and traverse.
    pub fn max_depth(self, depth: usize) -> (r: Self)
        ensures
            r.root_of() == self.root_of(),
            r@ == (WalkOptions { max_depth: depth, ..self@ }),
    {
        let mut w = self;
        w.max_depth = depth;
        w
    }

    /// Follow symbolic links (default: false).
    pub fn follow_links(self, yes: bool) -> (r: Self)
        ensures
            r.root_of() == self.root_of(),
            r@ == (WalkOptions { follow_links: yes, ..self@ }),
    {
        let mut w = self;
        w.follow_links = yes;
        w
    }

    /// Yield directory contents before the directory itself (default: false).
    pub fn contents_first(self, yes: bool) -> (r: Self)
        ensures
            r.root_of() == self.root_of(),
            r@ == (WalkOptions { contents_first: yes, ..self@ }),
    {
        let mut w = self;
        w.contents_first = yes;
        w
    }

    /// Starts the walk, given what reading the root's metadata gave: the
    /// root's kind, or the error.  The queue then holds the root at depth 0,
    /// or the error at the root's path.
    pub fn start(self, root_kind: Result<FileKind, io::Error>) -> (s: WalkState)
        ensures
            s.wf(),
            s.model() == start_model(self.root_of(), root_kind, self@),
            s.options() == self@,
            s.held_back().len() == 0,
            s.visiting_depth() == 0,
            s.pending().len() == 1,
            match root_kind {
                Ok(kind) => s.pending()[0] matches Ok(e) && e.path_of() == self.root_of()
                    && e.depth_of() == 0 && e.kind_of() == kind,
                Err(err) => s.pending()[0] matches Err(we) && we.failed_path() == Some(
                    self.root_of(),
                ) && we.cause() == err,
            },
    {
        let item = match root_kind {
            Ok(kind) => Ok(DirEntry { path: self.root, depth: 0, file_type: kind }),
            Err(e) => Err(WalkError { path: Some(self.root), inner: e }),
        };
        let mut queue = VecDeque::new();
        queue.push_back(item);
        WalkState {
            queue,
            min_depth: self.min_depth,
            max_depth: self.max_depth,
            follow_links: self.follow_links,
            contents_first: self.contents_first,
            deferred_dirs: Vec::new(),
            visit_depth: 0,
        }
    }
}

/// What the walk does next.
#[derive(Debug)]
pub enum Step {
    /// The walk is over.
    Done,
    /// Hand this item to the caller.
    Yield(Result<DirEntry, WalkError>),
    /// Visit this entry: apply any filter, read the directory if
    /// `needs_expansion` says so, then `settle` it.
    Visit(DirEntry),
}

/// The state of a walk in progress.
pub struct WalkState {
    queue: VecDeque<Result<DirEntry, WalkError>>,
    min_depth: usize,
    max_depth: usize,
    follow_links: bool,
    contents_first: bool,
    deferred_dirs: Vec<DirEntry>,
    visit_depth: usize,
}

/// Whether a queued item is an entry no deeper than `max_depth`.
pub open spec fn within_max(item: Result<DirEntry, WalkError>, max_depth: usize) -> bool {
    match item {
        Ok(e) => e.depth_of() <= max_depth,
        Err(_) => true,
    }
}

/// No entry among `items` lies deeper than `max_depth`.
pub open spec fn all_within_max(items: Seq<Result<DirEntry, WalkError>>, max_depth: usize) -> bool {
    forall|i: int| 0 <= i < items.len() ==> within_max(#[trigger] items[i], max_depth)
}

/// The entries among `items` come in order of depth, each at depth `base` or
/// one deeper: the shape of a breadth-first queue.
pub open spec fn by_depth(items: Seq<Result<DirEntry, WalkError>>, base: usize) -> bool {
    &&& forall|i: int, j: int|
        0 <= i < j < items.len() && items[i] is Ok && items[j] is Ok ==> (
        #[trigger] items[i]).unwrap().depth_of() <= (#[trigger] items[j]).unwrap().depth_of()
    &&& forall|i: int|
        0 <= i < items.len() && items[i] is Ok ==> base <= (#[trigger] items[i]).unwrap().depth_of()
            <= base + 1
}

/// Every entry of `dirs` lies between `min_depth` and `max_depth`.
pub open spec fn all_within(dirs: Seq<DirEntry>, min_depth: usize, max_depth: usize) -> bool {
    forall|i: int| 0 <= i < dirs.len() ==> min_depth <= (#[trigger] dirs[i]).depth_of() <= max_depth
}

/// The state of a walk as a mathematical value: the items still to visit
/// (front first), the directories held back (last one first out), the depth
/// of the entry visited last, and the settings.
pub struct WalkModel {
    pub pending: Seq<Result<DirEntry, WalkError>>,
    pub held: Seq<DirEntry>,
    pub visiting: usize,
    pub options: WalkOptions,
}

/// No pending entry lies deeper than `max_depth`; pending entries come in
/// order of depth, at the depth visited last or one deeper; every directory
/// held back lies between `min_depth` and `max_depth`, and none is held back
/// unless contents come first.
pub open spec fn model_wf(m: WalkModel) -> bool {
    &&& all_within_max(m.pending, m.options.max_depth)
    &&& by_depth(m.pending, m.visiting)
    &&& all_within(m.held, m.options.min_depth, m.options.max_depth)
    &&& !m.options.contents_first ==> m.held.len() == 0
}

/// The entry for `path` at `depth`, of `kind`.
pub closed spec fn entry_for(path: PathBuf, depth: usize, kind: FileKind) -> DirEntry {
    DirEntry { path, depth, file_type: kind }
}

/// The error `err` met at `path`.
pub closed spec fn error_at(path: PathBuf, err: io::Error) -> WalkError {
    WalkError { path: Some(path), inner: err }
}

/// The state a walk starts in, given the root and what reading its metadata
/// gave.
pub closed spec fn start_model(root: PathBuf, root_kind: Result<FileKind, io::Error>, options: WalkOptions) -> WalkModel {
    WalkModel {
        pending: seq![
            match root_kind {
                Ok(kind) => Ok(entry_for(root, 0, kind)),
                Err(e) => Err(error_at(root, e)),
            },
        ],
        held: Seq::empty(),
        visiting: 0,
        options,
    }
}

/// `next_step` as a transition: the new state and the step.
pub closed spec fn after_next(m: WalkModel) -> (WalkModel, Step) {
    if m.pending.len() > 0 {
        let rest = WalkModel { pending: m.pending.drop_first(), ..m };
        match m.pending[0] {
            Ok(e) => (WalkModel { visiting: e.depth, ..rest }, Step::Visit(e)),
            Err(er) => (rest, Step::Yield(Err(er))),
        }
    } else if m.held.len() > 0 {
        (WalkModel { held: m.held.drop_last(), ..m }, Step::Yield(Ok(m.held.last())))
    } else {
        (m, Step::Done)
    }
}

/// Whether `needs_expansion` holds of `e`.
pub closed spec fn expands(m: WalkModel, e: DirEntry) -> bool {
    e.file_type == FileKind::Dir && e.depth < m.options.max_depth
}

/// `push_child` as a transition.
pub closed spec fn after_push_child(m: WalkModel, path: PathBuf, kind: Result<FileKind, io::Error>) -> WalkModel {
    WalkModel {
        pending: m.pending.push(
            match kind {
                Ok(k) => Ok(entry_for(path, (m.visiting + 1) as usize, k)),
                Err(e) => Err(error_at(path, e)),
            },
        ),
        ..m
    }
}

/// `push_read_error` as a transition.
pub closed spec fn after_read_error(m: WalkModel, path: PathBuf, err: io::Error) -> WalkModel {
    WalkModel { pending: m.pending.push(Err(error_at(path, err))), ..m }
}

/// `settle` as a transition: the new state and what is yielded.
pub closed spec fn after_settle(m: WalkModel, e: DirEntry) -> (WalkModel, Option<DirEntry>) {
    if e.depth < m.options.min_depth {
        (m, None)
    } else if m.options.contents_first && e.file_type == FileKind::Dir {
        (WalkModel { held: m.held.push(e), ..m }, None)
    } else {
        (m, Some(e))
    }
}

impl WalkState {
    /// The items still to visit, front first.
    pub closed spec fn pending(&self) -> Seq<Result<DirEntry, WalkError>> {
        self.queue@
    }

    /// The directories held back until their contents are done, the last one
    /// first out.
    pub closed spec fn held_back(&self) -> Seq<DirEntry> {
        self.deferred_dirs@
    }

    /// The depth of the entry visited last (0 before any visit); the
    /// children queued now are one level deeper.
    pub closed spec fn visiting_depth(&self) -> usize {
        self.visit_depth
    }

    /// The settings of the walk.
    pub closed spec fn options(&self) -> WalkOptions {
        WalkOptions {
            min_depth: self.min_depth,
            max_depth: self.max_depth,
            follow_links: self.follow_links,
            contents_first: self.contents_first,
        }
    }

    /// No pending entry lies deeper than `max_depth`; pending entries come in
    /// order of depth, at the depth visited last or one deeper; every
    /// directory held back lies between `min_depth` and `max_depth`, and none
    /// is held back unless contents come first.
    pub open spec fn wf(&self) -> bool {
        model_wf(self.model())
    }

    /// The state as a mathematical value.
    pub closed spec fn model(&self) -> WalkModel {
        WalkModel {
            pending: self.queue@,
            held: self.deferred_dirs@,
            visiting: self.visit_depth,
            options: self.options(),
        }
    }

    /// The next thing to do: the front of the queue if there is one (an
    /// error is yielded, an entry is to be visited); once the queue is empty,
    /// the directory held back last; then the end.
    pub fn next_step(&mut self) -> (step: Step)
        requires
            old(self).wf(),
        ensures
            final(self).wf(),
            final(self).options() == old(self).options(),
            old(self).pending().len() > 0 ==> {
                &&& final(self).pending() == old(self).pending().drop_first()
                &&& final(self).held_back() == old(self).held_back()
                &&& step == match old(self).pending()[0] {
                    Ok(e) => Step::Visit(e),
                    Err(e) => Step::Yield(Err(e)),
                }
            },
            old(self).pending().len() == 0 ==> {
                &&& final(self).pending().len() == 0
                &&& if old(self).held_back().len() > 0 {
                    &&& final(self).held_back() == old(self).held_back().drop_last()
                    &&& step == Step::Yield(Ok(old(self).held_back().last()))
                } else {
                    &&& final(self).held_back() == old(self).held_back()
                    &&& step == Step::Done
                }
            },
            step matches Step::Yield(Ok(e)) ==> old(self).options().min_depth <= e.depth_of()
                <= old(self).options().max_depth,
            step matches Step::Visit(e) ==> e.depth_of() <= old(self).options().max_depth,
            step matches Step::Visit(e) ==> old(self).visiting_depth() <= e.depth_of()
                && final(self).visiting_depth() == e.depth_of(),
            !(step is Visit) ==> final(self).visiting_depth() == old(self).visiting_depth(),
            !old(self).options().contents_first ==> !(step matches Step::Yield(Ok(_))),
            (final(self).model(), step) == after_next(old(self).model()),
    {
        if self.queue.len() == 0 {
            match self.deferred_dirs.pop() {
                // held-back directories are never shallower than min_depth
                Some(dir) => Step::Yield(Ok(dir)),
                None => Step::Done,
            }
        } else {
            let ghost old_queue = self.queue@;
            match self.queue.pop_front() {
                Some(Ok(entry)) => {
                    assert(within_max(old_queue[0], self.max_depth));
                    assert(old_queue[0] is Ok);
                    self.visit_depth = entry.depth;
                    proof {
                        assert forall|i: int|
                            0 <= i < self.queue@.len() && self.queue@[i] is Ok implies entry.depth
                            <= (#[trigger] self.queue@[i]).unwrap().depth_of() by {
                            assert(self.queue@[i] == old_queue[i + 1]);
                        }
                        assert forall|i: int, j: int|
                            0 <= i < j < self.queue@.len() && self.queue@[i] is Ok
                                && self.queue@[j] is Ok implies (
                            #[trigger] self.queue@[i]).unwrap().depth_of() <= (
                            #[trigger] self.queue@[j]).unwrap().depth_of() by {
                            assert(self.queue@[i] == old_queue[i + 1]);
                            assert(self.queue@[j] == old_queue[j + 1]);
                        }
                        assert forall|i: int| 0 <= i < self.queue@.len() implies within_max(
                            #[trigger] self.queue@[i],
                            self.max_depth,
                        ) by {
                            assert(self.queue@[i] == old_queue[i + 1]);
                        }
                    }
                    Step::Visit(entry)
                },
                Some(Err(e)) => Step::Yield(Err(e)),
                None => Step::Done,
            }
        }
    }

    /// Whether entries are described by what a symbolic link points to
    /// (`true`) or by the link itself (`false`), when their metadata is read.
    pub fn follows_links(&self) -> (r: bool)
        ensures
            r == self.options().follow_links,
    {
        self.follow_links
    }

    /// Whether a visited entry's directory listing is to be read: it is a
    /// directory above `max_depth`.
    pub fn needs_expansion(&self, entry: &DirEntry) -> (r: bool)
        ensures
            r == (entry.kind_of() == FileKind::Dir && entry.depth_of() < self.options().max_depth),
            r == expands(self.model(), *entry),
    {
        entry.file_type.is_dir() && entry.depth < self.max_depth
    }

    /// Queues a child found in the listing of the entry visited last: the
    /// entry one level deeper, given the child's kind, or the error its
    /// metadata gave at its path.
    pub fn push_child(&mut self, path: PathBuf, kind: Result<FileKind, io::Error>)
        requires
            old(self).wf(),
            old(self).visiting_depth() < old(self).options().max_depth,
        ensures
            final(self).wf(),
            final(self).model() == after_push_child(old(self).model(), path, kind),
            final(self).options() == old(self).options(),
            final(self).held_back() == old(self).held_back(),
            final(self).visiting_depth() == old(self).visiting_depth(),
            final(self).pending().len() == old(self).pending().len() + 1,
            final(self).pending().drop_last() == old(self).pending(),
            match kind {
                Ok(k) => final(self).pending().last() matches Ok(e) && e.path_of() == path
                    && e.depth_of() == old(self).visiting_depth() + 1 && e.kind_of() == k,
                Err(err) => final(self).pending().last() matches Err(we) && we.failed_path()
                    == Some(path) && we.cause() == err,
            },
    {
        let item = match kind {
            Ok(k) => Ok(DirEntry { path, depth: self.visit_depth + 1, file_type: k }),
            Err(e) => Err(WalkError { path: Some(path), inner: e }),
        };
        self.queue.push_back(item);
        let ghost q = self.queue@;
        assert(q.drop_last() =~= old(self).queue@);
        assert forall|i: int| 0 <= i < q.len() implies within_max(
            #[trigger] q[i],
            self.max_depth,
        ) by {
            if i < old(self).pending().len() {
                assert(q[i] == old(self).pending()[i]);
            }
        }
        assert forall|i: int, j: int|
            0 <= i < j < q.len() && q[i] is Ok && q[j] is Ok implies (#[trigger] q[i]).unwrap().depth_of()
            <= (#[trigger] q[j]).unwrap().depth_of() by {
            assert(q[i] == old(self).pending()[i]);
            if j < old(self).pending().len() {
                assert(q[j] == old(self).pending()[j]);
            }
        }
        assert forall|i: int|
            0 <= i < q.len() && q[i] is Ok implies self.visit_depth <= (
            #[trigger] q[i]).unwrap().depth_of() <= self.visit_depth + 1 by {
            if i < old(self).pending().len() {
                assert(q[i] == old(self).pending()[i]);
            }
        }
    }

    /// Queues the error that reading a directory, or one item of its
    /// listing, gave, at the directory's path.
    pub fn push_read_error(&mut self, dir_path: PathBuf, err: io::Error)
        requires
            old(self).wf(),
        ensures
            final(self).model() == after_read_error(old(self).model(), dir_path, err),
            final(self).wf(),
            final(self).visiting_depth() == old(self).visiting_depth(),
            final(self).options() == old(self).options(),
            final(self).held_back() == old(self).held_back(),
            final(self).pending().len() == old(self).pending().len() + 1,
            final(self).pending().drop_last() == old(self).pending(),
            final(self).pending().last() matches Err(we) && we.failed_path() == Some(dir_path)
                && we.cause() == err,
    {
        self.queue.push_back(Err(WalkError { path: Some(dir_path), inner: err }));
        assert(self.queue@.drop_last() =~= old(self).queue@);
        assert forall|i: int| 0 <= i < self.pending().len() implies within_max(
            #[trigger] self.pending()[i],
            self.options().max_depth,
        ) by {
            if i < old(self).pending().len() {
                assert(self.pending()[i] == old(self).pending()[i]);
            }
        }
    }

    /// Decides what becomes of a visited entry once its listing (if any) is
    /// queued: one shallower than `min_depth` is dropped; a directory, when
    /// contents come first, is held back; any other is yielded.
    pub fn settle(&mut self, entry: DirEntry) -> (r: Option<DirEntry>)
        requires
            old(self).wf(),
            entry.depth_of() <= old(self).options().max_depth,
        ensures
            (final(self).model(), r) == after_settle(old(self).model(), entry),
            final(self).wf(),
            final(self).visiting_depth() == old(self).visiting_depth(),
            final(self).options() == old(self).options(),
            final(self).pending() == old(self).pending(),
            if entry.depth_of() < old(self).options().min_depth {
                r is None && final(self).held_back() == old(self).held_back()
            } else if old(self).options().contents_first && entry.kind_of() == FileKind::Dir {
                r is None && final(self).held_back() == old(self).held_back().push(entry)
            } else {
                r == Some(entry) && final(self).held_back() == old(self).held_back()
            },
    {
        if entry.depth < self.min_depth {
            return None;
        }
        if self.contents_first && entry.file_type.is_dir() {
            self.deferred_dirs.push(entry);
            assert forall|i: int| 0 <= i < self.held_back().len() implies self.options().min_depth
                <= (#[trigger] self.held_back()[i]).depth_of() <= self.options().max_depth by {
                if i < old(self).held_back().len() {
                    assert(self.held_back()[i] == old(self).held_back()[i]);
                }
            }
            return None;
        }
        Some(entry)
    }

    /// The entry at the front of the queue, unless the front is an error or
    /// the queue is empty.
    pub fn front_entry(&self) -> (r: Option<&DirEntry>)
        ensures
            match r {
                Some(e) => self.pending().len() > 0 && self.pending()[0] == Ok::<DirEntry, WalkError>(*e),
                None => self.pending().len() == 0 || self.pending()[0] is Err,
            },
    {
        if self.queue.len() == 0 {
            return None;
        }
        match &self.queue[0] {
            Ok(e) => Some(e),
            Err(_) => None,
        }
    }

    /// Drops the front of the queue, if any.
    pub fn skip_front(&mut self)
        requires
            old(self).wf(),
        ensures
            final(self).wf(),
            final(self).visiting_depth() == old(self).visiting_depth(),
            final(self).options() == old(self).options(),
            final(self).held_back() == old(self).held_back(),
            final(self).pending() == if old(self).pending().len() > 0 {
                old(self).pending().drop_first()
            } else {
                old(self).pending()
            },
    {
        let _ = self.queue.pop_front();
        assert forall|i: int| 0 <= i < self.pending().len() implies within_max(
            #[trigger] self.pending()[i],
            self.options().max_depth,
        ) by {
            assert(self.pending()[i] == old(self).pending()[i + 1]);
        }
    }
}

// ---------------------------------------------------------------------------
// Whole walks: a caller that drives the machine over a tree.
// ---------------------------------------------------------------------------

/// A filesystem tree as a walk meets it.
pub enum FsNode {
    /// An entry whose metadata could be read: its path, its kind and, for a
    /// directory, its listing or the error reading it gave.
    Node { path: PathBuf, kind: FileKind, listing: Result<Seq<FsNode>, io::Error> },
    /// An entry whose metadata gave an error.
    Unreadable { path: PathBuf, err: io::Error },
}

/// The node reached from `n` by the child indices `a`, if any.
pub open spec fn node_at(n: FsNode, a: Seq<int>) -> Option<FsNode>
    decreases a.len(),
{
    if a.len() == 0 {
        Some(n)
    } else {
        match n {
            FsNode::Node { listing: Ok(kids), .. } => if 0 <= a[0] < kids.len() {
                node_at(kids[a[0]], a.drop_first())
            } else {
                None
            },
            _ => None,
        }
    }
}

/// The entry a walk from `root` makes for the node at `a`.
pub closed spec fn entry_at(root: FsNode, a: Seq<int>) -> DirEntry {
    match node_at(root, a) {
        Some(FsNode::Node { path, kind, .. }) => entry_for(path, a.len() as usize, kind),
        _ => vstd::pervasive::arbitrary(),
    }
}

/// `p` is a prefix of `s`: the node at `s` lies under (or is) the node at `p`.
pub open spec fn is_prefix(p: Seq<int>, s: Seq<int>) -> bool {
    p.len() <= s.len() && s.subrange(0, p.len() as int) == p
}

/// What the walk queues for a child node, at `depth`.
pub closed spec fn kid_item(n: FsNode, depth: usize) -> Result<DirEntry, WalkError> {
    match n {
        FsNode::Node { path, kind, .. } => Ok(entry_for(path, depth, kind)),
        FsNode::Unreadable { path, err } => Err(error_at(path, err)),
    }
}

/// The address of the `k`-th child of the node at `a`, when it is an entry.
pub open spec fn kid_addr(n: FsNode, a: Seq<int>, k: int) -> Option<Seq<int>> {
    match n {
        FsNode::Node { .. } => Some(a.push(k)),
        FsNode::Unreadable { .. } => None,
    }
}

/// A caller's walk in progress: the machine's state, the tree address of
/// every pending and held-back entry, what was yielded (with addresses), and
/// whether the machine said it is done.  Each pending and yielded item also
/// carries its source: the address of the node it was made from (for the
/// error reading a listing, that of the directory).
pub struct WalkRun {
    pub walk: WalkModel,
    pub addrs: Seq<Option<Seq<int>>>,
    pub srcs: Seq<Seq<int>>,
    pub held_addrs: Seq<Seq<int>>,
    pub out: Seq<Result<DirEntry, WalkError>>,
    pub out_addrs: Seq<Option<Seq<int>>>,
    pub out_srcs: Seq<Seq<int>>,
    pub done: bool,
}

/// The children from index `i` on, queued one by one with `push_child`.
pub closed spec fn push_kids(
    w: WalkModel,
    addrs: Seq<Option<Seq<int>>>,
    kids: Seq<FsNode>,
    a: Seq<int>,
    i: int,
) -> (WalkModel, Seq<Option<Seq<int>>>)
    decreases kids.len() - i,
{
    if i < 0 || i >= kids.len() {
        (w, addrs)
    } else {
        match kids[i] {
            FsNode::Node { path, kind, .. } => push_kids(
                after_push_child(w, path, Ok(kind)),
                addrs.push(Some(a.push(i))),
                kids,
                a,
                i + 1,
            ),
            FsNode::Unreadable { path, err } => push_kids(
                after_push_child(w, path, Err(err)),
                addrs.push(None),
                kids,
                a,
                i + 1,
            ),
        }
    }
}

/// Reading the listing of the entry at `a`, node `n`, and queueing what it
/// gives: each child, or the error reading it gave.
pub closed spec fn expand_node(w: WalkModel, addrs: Seq<Option<Seq<int>>>, n: FsNode, a: Seq<int>) -> (
    WalkModel,
    Seq<Option<Seq<int>>>,
) {
    match n {
        FsNode::Node { listing: Ok(kids), .. } => push_kids(w, addrs, kids, a, 0),
        FsNode::Node { path, listing: Err(err), .. } => (
            after_read_error(w, path, err),
            addrs.push(None),
        ),
        FsNode::Unreadable { .. } => (w, addrs),
    }
}

/// The sources of what expanding the node `n` at `a` queues.
pub open spec fn expand_srcs(srcs: Seq<Seq<int>>, n: FsNode, a: Seq<int>) -> Seq<Seq<int>> {
    match n {
        FsNode::Node { listing: Ok(kids), .. } => srcs + Seq::new(kids.len(), |j: int| a.push(j)),
        FsNode::Node { listing: Err(_), .. } => srcs.push(a),
        FsNode::Unreadable { .. } => srcs,
    }
}

/// How a caller starts a walk of `root`.
pub closed spec fn run_start(root: FsNode, options: WalkOptions) -> WalkRun {
    match root {
        FsNode::Node { path, kind, .. } => WalkRun {
            walk: start_model(path, Ok(kind), options),
            addrs: seq![Some(Seq::<int>::empty())],
            srcs: seq![Seq::<int>::empty()],
            held_addrs: Seq::empty(),
            out: Seq::empty(),
            out_addrs: Seq::empty(),
            out_srcs: Seq::empty(),
            done: false,
        },
        FsNode::Unreadable { path, err } => WalkRun {
            walk: start_model(path, Err(err), options),
            addrs: seq![None],
            srcs: seq![Seq::<int>::empty()],
            held_addrs: Seq::empty(),
            out: Seq::empty(),
            out_addrs: Seq::empty(),
            out_srcs: Seq::empty(),
            done: false,
        },
    }
}

/// One round of a caller: `next_step`; an item is yielded; a visited entry
/// the filter `keep` rejects is dropped, else it is expanded when
/// `needs_expansion` says so and then settled.
pub closed spec fn run_step(r: WalkRun, root: FsNode, keep: spec_fn(DirEntry) -> bool) -> WalkRun {
    if r.done {
        r
    } else {
        let (w1, step) = after_next(r.walk);
        match step {
            Step::Done => WalkRun { walk: w1, done: true, ..r },
            Step::Yield(item) => if r.walk.pending.len() > 0 {
                WalkRun {
                    walk: w1,
                    addrs: r.addrs.drop_first(),
                    srcs: r.srcs.drop_first(),
                    out: r.out.push(item),
                    out_addrs: r.out_addrs.push(None),
                    out_srcs: r.out_srcs.push(r.srcs[0]),
                    ..r
                }
            } else {
                WalkRun {
                    walk: w1,
                    held_addrs: r.held_addrs.drop_last(),
                    out: r.out.push(item),
                    out_addrs: r.out_addrs.push(Some(r.held_addrs.last())),
                    out_srcs: r.out_srcs.push(r.held_addrs.last()),
                    ..r
                }
            },
            Step::Visit(e) => {
                let a = r.addrs[0]->Some_0;
                let rest = r.addrs.drop_first();
                let rest_srcs = r.srcs.drop_first();
                if !keep(e) {
                    WalkRun { walk: w1, addrs: rest, srcs: rest_srcs, ..r }
                } else {
                    let (w2, addrs2) = if expands(w1, e) {
                        expand_node(w1, rest, node_at(root, a)->Some_0, a)
                    } else {
                        (w1, rest)
                    };
                    let srcs2 = if expands(w1, e) {
                        expand_srcs(rest_srcs, node_at(root, a)->Some_0, a)
                    } else {
                        rest_srcs
                    };
                    let (w3, y) = after_settle(w2, e);
                    match y {
                        Some(e2) => WalkRun {
                            walk: w3,
                            addrs: addrs2,
                            srcs: srcs2,
                            out: r.out.push(Ok(e2)),
                            out_addrs: r.out_addrs.push(Some(a)),
                            out_srcs: r.out_srcs.push(a),
                            ..r
                        },
                        None => if w3.held.len() > w2.held.len() {
                            WalkRun {
                                walk: w3,
                                addrs: addrs2,
                                srcs: srcs2,
                                held_addrs: r.held_addrs.push(a),
                                ..r
                            }
                        } else {
                            WalkRun { walk: w3, addrs: addrs2, srcs: srcs2, ..r }
                        },
                    }
                }
            },
        }
    }
}

/// The walk of `root` after `k` rounds.
pub closed spec fn run(root: FsNode, options: WalkOptions, keep: spec_fn(DirEntry) -> bool, k: nat) -> WalkRun
    decreases k,
{
    if k == 0 {
        run_start(root, options)
    } else {
        run_step(run(root, options, keep, (k - 1) as nat), root, keep)
    }
}

/// Queueing the children one by one queues them all, in order.
proof fn lemma_push_kids(w: WalkModel, addrs: Seq<Option<Seq<int>>>, kids: Seq<FsNode>, a: Seq<int>, i: int)
    requires
        0 <= i <= kids.len(),
    ensures
        push_kids(w, addrs, kids, a, i).0.pending =~= w.pending + Seq::new(
            (kids.len() - i) as nat,
            |k: int| kid_item(kids[i + k], (w.visiting + 1) as usize),
        ),
        push_kids(w, addrs, kids, a, i).0.held == w.held,
        push_kids(w, addrs, kids, a, i).0.visiting == w.visiting,
        push_kids(w, addrs, kids, a, i).0.options == w.options,
        push_kids(w, addrs, kids, a, i).1 =~= addrs + Seq::new(
            (kids.len() - i) as nat,
            |k: int| kid_addr(kids[i + k], a, i + k),
        ),
    decreases kids.len() - i,
{
    if i < kids.len() {
        let (w1, addrs1) = match kids[i] {
            FsNode::Node { path, kind, .. } => (after_push_child(w, path, Ok(kind)), addrs.push(Some(a.push(i)))),
            FsNode::Unreadable { path, err } => (after_push_child(w, path, Err(err)), addrs.push(None)),
        };
        assert(push_kids(w, addrs, kids, a, i) == push_kids(w1, addrs1, kids, a, i + 1));
        lemma_push_kids(w1, addrs1, kids, a, i + 1);
        assert(w1.pending == w.pending.push(kid_item(kids[i], (w.visiting + 1) as usize)));
        assert(addrs1 == addrs.push(kid_addr(kids[i], a, i)));
        let n = (kids.len() - i) as nat;
        let f = |k: int| kid_item(kids[i + k], (w.visiting + 1) as usize);
        let f1 = |k: int| kid_item(kids[i + 1 + k], (w.visiting + 1) as usize);
        assert(w.pending.push(f(0)) + Seq::new((n - 1) as nat, f1) =~= w.pending + Seq::new(n, f));
        let g = |k: int| kid_addr(kids[i + k], a, i + k);
        let g1 = |k: int| kid_addr(kids[i + 1 + k], a, i + 1 + k);
        assert(addrs.push(g(0)) + Seq::new((n - 1) as nat, g1) =~= addrs + Seq::new(n, g));
    } else {
        assert(Seq::new(0, |k: int| kid_item(kids[i + k], (w.visiting + 1) as usize)).len() == 0);
    }
}

/// The node at `a` followed by child index `i`.
proof fn lemma_node_at_push(n: FsNode, a: Seq<int>, i: int)
    ensures
        node_at(n, a.push(i)) == match node_at(n, a) {
            Some(FsNode::Node { listing: Ok(kids), .. }) => if 0 <= i < kids.len() {
                Some(kids[i])
            } else {
                None
            },
            _ => None,
        },
    decreases a.len(),
{
    if a.len() == 0 {
        assert(a.push(i).drop_first() =~= Seq::<int>::empty());
        assert(a.push(i)[0] == i);
    } else {
        assert(a.push(i).drop_first() =~= a.drop_first().push(i));
        assert(a.push(i)[0] == a[0]);
        if let FsNode::Node { listing: Ok(kids), .. } = n {
            if 0 <= a[0] < kids.len() {
                lemma_node_at_push(kids[a[0]], a.drop_first(), i);
            }
        }
    }
}

/// A prefix of `a` extended by one index is that extension or a prefix of `a`.
proof fn lemma_prefix_push(x: Seq<int>, a: Seq<int>, i: int)
    ensures
        is_prefix(x, a.push(i)) <==> (x == a.push(i) || is_prefix(x, a)),
        is_prefix(a, a.push(i)),
{
    assert(a.push(i).subrange(0, a.len() as int) =~= a);
    if x.len() <= a.len() {
        assert(a.push(i).subrange(0, x.len() as int) =~= a.subrange(0, x.len() as int));
    }
    if x.len() == a.len() + 1 && is_prefix(x, a.push(i)) {
        assert(a.push(i).subrange(0, x.len() as int) =~= a.push(i));
    }
    if x == a.push(i) {
        assert(a.push(i).subrange(0, x.len() as int) =~= a.push(i));
    }
}

proof fn lemma_prefix_trans(x: Seq<int>, y: Seq<int>, z: Seq<int>)
    requires
        is_prefix(x, y),
        is_prefix(y, z),
    ensures
        is_prefix(x, z),
{
    assert(z.subrange(0, x.len() as int) =~= z.subrange(0, y.len() as int).subrange(0, x.len() as int));
}

proof fn lemma_prefix_refl(x: Seq<int>)
    ensures
        is_prefix(x, x),
{
    assert(x.subrange(0, x.len() as int) =~= x);
}

/// There is an entry (not an unreadable one) at `a`.
pub open spec fn is_entry(root: FsNode, a: Seq<int>) -> bool {
    node_at(root, a) matches Some(FsNode::Node { .. })
}

/// `keep` accepts the entries at the first `upto` prefixes of `a`: for
/// `upto == a.len()` its proper ancestors, for `a.len() + 1` these and `a`.
pub open spec fn kept_prefixes(root: FsNode, keep: spec_fn(DirEntry) -> bool, a: Seq<int>, upto: int) -> bool {
    forall|j: int| 0 <= j < upto ==> #[trigger] keep(entry_at(root, a.subrange(0, j)))
}

/// An item and its address agree with the tree.
pub open spec fn linked(root: FsNode, item: Result<DirEntry, WalkError>, addr: Option<Seq<int>>) -> bool {
    match addr {
        Some(a) => is_entry(root, a) && item == Ok::<DirEntry, WalkError>(entry_at(root, a)),
        None => item is Err,
    }
}

/// Pending items agree with the tree; their entries lie no deeper than
/// `max_depth` and every ancestor of them was accepted.
pub open spec fn inv_pending(r: WalkRun, root: FsNode, keep: spec_fn(DirEntry) -> bool) -> bool {
    &&& r.addrs.len() == r.walk.pending.len()
    &&& forall|k: int|
        0 <= k < r.addrs.len() ==> linked(root, r.walk.pending[k], #[trigger] r.addrs[k])
    &&& forall|k: int|
        0 <= k < r.addrs.len() && r.addrs[k] is Some ==> {
            let a = (#[trigger] r.addrs[k])->Some_0;
            &&& a.len() <= r.walk.options.max_depth
            &&& a.len() <= r.walk.visiting + 1
            &&& kept_prefixes(root, keep, a, a.len() as int)
        }
}

/// Held-back directories agree with the tree; they and their ancestors were
/// accepted.
pub open spec fn inv_held(r: WalkRun, root: FsNode, keep: spec_fn(DirEntry) -> bool) -> bool {
    &&& r.held_addrs.len() == r.walk.held.len()
    &&& forall|k: int|
        0 <= k < r.held_addrs.len() ==> {
            let a = #[trigger] r.held_addrs[k];
            &&& is_entry(root, a)
            &&& r.walk.held[k] == entry_at(root, a)
            &&& a.len() <= r.walk.options.max_depth
            &&& a.len() <= r.walk.visiting
            &&& kept_prefixes(root, keep, a, a.len() + 1int)
        }
}

/// Yielded items agree with the tree; yielded entries lie in the depth
/// window, and they and their ancestors were accepted.
pub open spec fn inv_out(r: WalkRun, root: FsNode, keep: spec_fn(DirEntry) -> bool) -> bool {
    &&& r.out_addrs.len() == r.out.len()
    &&& forall|k: int| 0 <= k < r.out.len() ==> linked(root, r.out[k], #[trigger] r.out_addrs[k])
    &&& forall|k: int|
        0 <= k < r.out.len() && r.out_addrs[k] is Some ==> {
            let a = (#[trigger] r.out_addrs[k])->Some_0;
            &&& r.walk.options.min_depth <= a.len() <= r.walk.options.max_depth
            &&& a.len() <= r.walk.visiting
            &&& kept_prefixes(root, keep, a, a.len() + 1int)
        }
}

/// No address is met twice, and no pending entry has a pending, held-back or
/// yielded entry under it (or equal to it); no held-back directory has one
/// held back before it under it.
pub open spec fn inv_shape(r: WalkRun) -> bool {
    &&& forall|i: int, j: int|
        0 <= i < r.addrs.len() && 0 <= j < r.addrs.len() && i != j && r.addrs[i] is Some
            && r.addrs[j] is Some ==> !is_prefix(
            (#[trigger] r.addrs[i])->Some_0,
            (#[trigger] r.addrs[j])->Some_0,
        )
    &&& forall|i: int, j: int|
        0 <= i < r.addrs.len() && 0 <= j < r.held_addrs.len() && r.addrs[i] is Some ==> !is_prefix(
            (#[trigger] r.addrs[i])->Some_0,
            #[trigger] r.held_addrs[j],
        )
    &&& forall|i: int, j: int|
        0 <= i < r.addrs.len() && 0 <= j < r.out_addrs.len() && r.addrs[i] is Some
            && r.out_addrs[j] is Some ==> !is_prefix(
            (#[trigger] r.addrs[i])->Some_0,
            (#[trigger] r.out_addrs[j])->Some_0,
        )
    &&& forall|i: int, j: int|
        0 <= i < j < r.held_addrs.len() ==> !is_prefix(
            #[trigger] r.held_addrs[j],
            #[trigger] r.held_addrs[i],
        )
    &&& forall|i: int, j: int|
        0 <= i < r.out_addrs.len() && 0 <= j < r.out_addrs.len() && i != j && r.out_addrs[i] is Some
            && r.out_addrs[j] is Some ==> (#[trigger] r.out_addrs[i])->Some_0 != (
        #[trigger] r.out_addrs[j])->Some_0
    &&& forall|i: int, j: int|
        0 <= i < r.out_addrs.len() && 0 <= j < r.held_addrs.len() && r.out_addrs[i] is Some ==> (
        #[trigger] r.out_addrs[i])->Some_0 != #[trigger] r.held_addrs[j]
}

/// Whether the `k`-th yielded item is a directory entry.
pub open spec fn out_dir(r: WalkRun, k: int) -> bool {
    r.out[k] matches Ok(e) && e.kind_of() == FileKind::Dir
}

/// The orders a walk keeps: without contents first, yielded entries come by
/// depth; with it, a yielded directory has nothing pending or held back under
/// it, and nothing under it was yielded after it.
pub open spec fn inv_order(r: WalkRun) -> bool {
    &&& !r.walk.options.contents_first ==> forall|i: int, j: int|
        0 <= i < j < r.out_addrs.len() && r.out_addrs[i] is Some && r.out_addrs[j] is Some ==> (
        #[trigger] r.out_addrs[i])->Some_0.len() <= (#[trigger] r.out_addrs[j])->Some_0.len()
    &&& r.walk.options.contents_first ==> forall|i: int, j: int|
        0 <= i < r.out_addrs.len() && out_dir(r, i) && 0 <= j < r.addrs.len() && r.addrs[j] is Some
            ==> !is_prefix((#[trigger] r.out_addrs[i])->Some_0, (#[trigger] r.addrs[j])->Some_0)
    &&& r.walk.options.contents_first ==> forall|i: int, j: int|
        0 <= i < r.out_addrs.len() && out_dir(r, i) && 0 <= j < r.held_addrs.len() ==> !is_prefix(
            (#[trigger] r.out_addrs[i])->Some_0,
            #[trigger] r.held_addrs[j],
        )
    &&& r.walk.options.contents_first ==> forall|i: int, j: int|
        0 <= i < j < r.out_addrs.len() && out_dir(r, i) && r.out_addrs[j] is Some ==> !(
        is_prefix((#[trigger] r.out_addrs[i])->Some_0, (#[trigger] r.out_addrs[j])->Some_0)
            && r.out_addrs[i]->Some_0.len() < r.out_addrs[j]->Some_0.len())
}

/// Everything a walk keeps true from round to round.
pub open spec fn run_inv(r: WalkRun, root: FsNode, keep: spec_fn(DirEntry) -> bool) -> bool {
    &&& model_wf(r.walk)
    &&& inv_pending(r, root, keep)
    &&& inv_held(r, root, keep)
    &&& inv_out(r, root, keep)
    &&& inv_shape(r)
    &&& inv_order(r)
}

/// The entry at an address carries the node's path and kind, at the
/// address's length as depth.
proof fn lemma_entry_at(root: FsNode, a: Seq<int>)
    requires
        is_entry(root, a),
        a.len() <= usize::MAX,
    ensures
        entry_at(root, a).depth_of() == a.len(),
        node_at(root, a) matches Some(FsNode::Node { path, kind, .. }) && entry_at(root, a).path_of()
            == path && entry_at(root, a).kind_of() == kind,
{
}

proof fn lemma_run_start(root: FsNode, options: WalkOptions, keep: spec_fn(DirEntry) -> bool)
    ensures
        run_inv(run_start(root, options), root, keep),
{
    let r = run_start(root, options);
    let e = Seq::<int>::empty();
    assert(node_at(root, e) == Some(root));
    if let FsNode::Node { .. } = root {
        assert(r.addrs[0] == Some(e));
        lemma_entry_at(root, e);
        assert(kept_prefixes(root, keep, e, 0));
    }
}

proof fn lemma_next_wf(m: WalkModel)
    requires
        model_wf(m),
    ensures
        model_wf(after_next(m).0),
        after_next(m).1 matches Step::Visit(e) ==> m.visiting <= e.depth_of() <= m.options.max_depth
            && after_next(m).0.visiting == e.depth_of() && m.pending.len() > 0 && m.pending[0] == Ok::<
            DirEntry,
            WalkError,
        >(e),
        !(after_next(m).1 is Visit) ==> after_next(m).0.visiting == m.visiting,
{
    if m.pending.len() > 0 {
        let q = m.pending.drop_first();
        assert forall|i: int| 0 <= i < q.len() implies within_max(#[trigger] q[i], m.options.max_depth) by {
            assert(q[i] == m.pending[i + 1]);
        }
        assert forall|i: int, j: int|
            0 <= i < j < q.len() && q[i] is Ok && q[j] is Ok implies (#[trigger] q[i]).unwrap().depth_of()
            <= (#[trigger] q[j]).unwrap().depth_of() by {
            assert(q[i] == m.pending[i + 1]);
            assert(q[j] == m.pending[j + 1]);
        }
        if let Ok(e) = m.pending[0] {
            assert(within_max(m.pending[0], m.options.max_depth));
            assert forall|i: int| 0 <= i < q.len() && q[i] is Ok implies e.depth_of() <= (
            #[trigger] q[i]).unwrap().depth_of() <= e.depth_of() + 1 by {
                assert(q[i] == m.pending[i + 1]);
            }
        } else {
            assert forall|i: int| 0 <= i < q.len() && q[i] is Ok implies m.visiting <= (
            #[trigger] q[i]).unwrap().depth_of() <= m.visiting + 1 by {
                assert(q[i] == m.pending[i + 1]);
            }
        }
    } else if m.held.len() > 0 {
        let h = m.held.drop_last();
        assert forall|i: int| 0 <= i < h.len() implies m.options.min_depth <= (
        #[trigger] h[i]).depth_of() <= m.options.max_depth by {
            assert(h[i] == m.held[i]);
        }
    }
}

proof fn lemma_push_child_wf(m: WalkModel, path: PathBuf, kind: Result<FileKind, io::Error>)
    requires
        model_wf(m),
        m.visiting < m.options.max_depth,
    ensures
        model_wf(after_push_child(m, path, kind)),
{
    let q = after_push_child(m, path, kind).pending;
    assert forall|i: int| 0 <= i < q.len() implies within_max(#[trigger] q[i], m.options.max_depth) by {
        if i < m.pending.len() {
            assert(q[i] == m.pending[i]);
        }
    }
    assert forall|i: int, j: int|
        0 <= i < j < q.len() && q[i] is Ok && q[j] is Ok implies (#[trigger] q[i]).unwrap().depth_of()
        <= (#[trigger] q[j]).unwrap().depth_of() by {
        assert(q[i] == m.pending[i]);
        if j < m.pending.len() {
            assert(q[j] == m.pending[j]);
        }
    }
    assert forall|i: int| 0 <= i < q.len() && q[i] is Ok implies m.visiting <= (
    #[trigger] q[i]).unwrap().depth_of() <= m.visiting + 1 by {
        if i < m.pending.len() {
            assert(q[i] == m.pending[i]);
        }
    }
}

proof fn lemma_read_error_wf(m: WalkModel, path: PathBuf, err: io::Error)
    requires
        model_wf(m),
    ensures
        model_wf(after_read_error(m, path, err)),
{
    let q = after_read_error(m, path, err).pending;
    assert forall|i: int| 0 <= i < q.len() implies within_max(#[trigger] q[i], m.options.max_depth) by {
        if i < m.pending.len() {
            assert(q[i] == m.pending[i]);
        }
    }
    assert forall|i: int, j: int|
        0 <= i < j < q.len() && q[i] is Ok && q[j] is Ok implies (#[trigger] q[i]).unwrap().depth_of()
        <= (#[trigger] q[j]).unwrap().depth_of() by {
        assert(q[i] == m.pending[i]);
        assert(q[j] == m.pending[j]);
    }
    assert forall|i: int| 0 <= i < q.len() && q[i] is Ok implies m.visiting <= (
    #[trigger] q[i]).unwrap().depth_of() <= m.visiting + 1 by {
        assert(q[i] == m.pending[i]);
    }
}

proof fn lemma_settle_wf(m: WalkModel, e: DirEntry)
    requires
        model_wf(m),
        e.depth_of() <= m.options.max_depth,
    ensures
        model_wf(after_settle(m, e).0),
        after_settle(m, e).0.pending == m.pending,
        after_settle(m, e).0.visiting == m.visiting,
        after_settle(m, e).0.options == m.options,
        after_settle(m, e).1 is Some ==> after_settle(m, e).1 == Some(e) && after_settle(m, e).0.held
            == m.held && m.options.min_depth <= e.depth_of() && !(m.options.contents_first
            && e.kind_of() == FileKind::Dir),
        after_settle(m, e).1 is None ==> if e.depth_of() < m.options.min_depth {
            after_settle(m, e).0.held == m.held
        } else {
            m.options.contents_first && e.kind_of() == FileKind::Dir && after_settle(m, e).0.held
                == m.held.push(e)
        },
{
    if e.depth >= m.options.min_depth && m.options.contents_first && e.file_type == FileKind::Dir {
        let h = m.held.push(e);
        assert forall|i: int| 0 <= i < h.len() implies m.options.min_depth <= (
        #[trigger] h[i]).depth_of() <= m.options.max_depth by {
            if i < m.held.len() {
                assert(h[i] == m.held[i]);
            }
        }
    }
}

proof fn lemma_push_kids_wf(w: WalkModel, addrs: Seq<Option<Seq<int>>>, kids: Seq<FsNode>, a: Seq<int>, i: int)
    requires
        model_wf(w),
        w.visiting < w.options.max_depth,
    ensures
        model_wf(push_kids(w, addrs, kids, a, i).0),
    decreases kids.len() - i,
{
    if 0 <= i < kids.len() {
        match kids[i] {
            FsNode::Node { path, kind, .. } => {
                lemma_push_child_wf(w, path, Ok(kind));
                lemma_push_kids_wf(after_push_child(w, path, Ok(kind)), addrs.push(Some(a.push(i))), kids, a, i + 1);
            },
            FsNode::Unreadable { path, err } => {
                lemma_push_child_wf(w, path, Err(err));
                lemma_push_kids_wf(after_push_child(w, path, Err(err)), addrs.push(None), kids, a, i + 1);
            },
        }
    }
}

proof fn lemma_step_error(r: WalkRun, root: FsNode, keep: spec_fn(DirEntry) -> bool)
    requires
        run_inv(r, root, keep),
        !r.done,
        r.walk.pending.len() > 0,
        r.walk.pending[0] is Err,
    ensures
        run_inv(run_step(r, root, keep), root, keep),
{
    let r2 = run_step(r, root, keep);
    lemma_next_wf(r.walk);
    assert(r2.addrs == r.addrs.drop_first());
    assert(r2.walk.pending == r.walk.pending.drop_first());
    assert(r2.out_addrs == r.out_addrs.push(None::<Seq<int>>));
    assert(r2.held_addrs == r.held_addrs);
    assert(r2.walk.visiting == r.walk.visiting);
    assert(r.addrs[0] is None);
    assert forall|k: int| 0 <= k < r2.addrs.len() implies #[trigger] r2.addrs[k] == r.addrs[k + 1]
        && r2.walk.pending[k] == r.walk.pending[k + 1] by {}
    assert forall|k: int| 0 <= k < r.out_addrs.len() implies #[trigger] r2.out_addrs[k] == r.out_addrs[k]
        && r2.out[k] == r.out[k] by {}
    assert(inv_pending(r2, root, keep));
    assert(inv_out(r2, root, keep));
    assert(inv_shape(r2)) by {
        assert forall|i: int, j: int|
            0 <= i < r2.addrs.len() && 0 <= j < r2.addrs.len() && i != j && r2.addrs[i] is Some
                && r2.addrs[j] is Some implies !is_prefix(
            (#[trigger] r2.addrs[i])->Some_0,
            (#[trigger] r2.addrs[j])->Some_0,
        ) by {
            assert(r.addrs[i + 1] == r2.addrs[i] && r.addrs[j + 1] == r2.addrs[j]);
        }
        assert forall|i: int, j: int|
            0 <= i < r2.addrs.len() && 0 <= j < r2.held_addrs.len() && r2.addrs[i] is Some implies !is_prefix(
            (#[trigger] r2.addrs[i])->Some_0,
            #[trigger] r2.held_addrs[j],
        ) by {
            assert(r.addrs[i + 1] == r2.addrs[i]);
        }
        assert forall|i: int, j: int|
            0 <= i < r2.addrs.len() && 0 <= j < r2.out_addrs.len() && r2.addrs[i] is Some
                && r2.out_addrs[j] is Some implies !is_prefix(
            (#[trigger] r2.addrs[i])->Some_0,
            (#[trigger] r2.out_addrs[j])->Some_0,
        ) by {
            assert(r.addrs[i + 1] == r2.addrs[i]);
            assert(j < r.out_addrs.len());
            assert(r.out_addrs[j] == r2.out_addrs[j]);
        }
        assert forall|i: int, j: int|
            0 <= i < r2.out_addrs.len() && 0 <= j < r2.out_addrs.len() && i != j && r2.out_addrs[i] is Some
                && r2.out_addrs[j] is Some implies (#[trigger] r2.out_addrs[i])->Some_0 != (
            #[trigger] r2.out_addrs[j])->Some_0 by {
            assert(i < r.out_addrs.len() && j < r.out_addrs.len());
            assert(r.out_addrs[i] == r2.out_addrs[i] && r.out_addrs[j] == r2.out_addrs[j]);
        }
        assert forall|i: int, j: int|
            0 <= i < r2.out_addrs.len() && 0 <= j < r2.held_addrs.len() && r2.out_addrs[i] is Some implies (
            #[trigger] r2.out_addrs[i])->Some_0 != #[trigger] r2.held_addrs[j] by {
            assert(i < r.out_addrs.len());
            assert(r.out_addrs[i] == r2.out_addrs[i]);
        }
    }
    assert forall|i: int| 0 <= i < r2.out_addrs.len() && out_dir(r2, i) implies i < r.out_addrs.len()
        && out_dir(r, i) && r2.out_addrs[i] == r.out_addrs[i] by {}
    assert(inv_order(r2)) by {
        if !r.walk.options.contents_first {
            assert forall|i: int, j: int|
                0 <= i < j < r2.out_addrs.len() && r2.out_addrs[i] is Some && r2.out_addrs[j] is Some implies (
                #[trigger] r2.out_addrs[i])->Some_0.len() <= (#[trigger] r2.out_addrs[j])->Some_0.len() by {
                assert(j < r.out_addrs.len());
                assert(r.out_addrs[i] == r2.out_addrs[i] && r.out_addrs[j] == r2.out_addrs[j]);
            }
        } else {
            assert forall|i: int, j: int|
                0 <= i < r2.out_addrs.len() && out_dir(r2, i) && 0 <= j < r2.addrs.len() && r2.addrs[j] is Some
                    implies !is_prefix((#[trigger] r2.out_addrs[i])->Some_0, (#[trigger] r2.addrs[j])->Some_0) by {
                assert(r.addrs[j + 1] == r2.addrs[j]);
            }
            assert forall|i: int, j: int|
                0 <= i < j < r2.out_addrs.len() && out_dir(r2, i) && r2.out_addrs[j] is Some implies !(
                is_prefix((#[trigger] r2.out_addrs[i])->Some_0, (#[trigger] r2.out_addrs[j])->Some_0)
                    && r2.out_addrs[i]->Some_0.len() < r2.out_addrs[j]->Some_0.len()) by {
                assert(j < r.out_addrs.len());
                assert(r.out_addrs[j] == r2.out_addrs[j]);
            }
        }
    }
}

proof fn lemma_step_held(r: WalkRun, root: FsNode, keep: spec_fn(DirEntry) -> bool)
    requires
        run_inv(r, root, keep),
        !r.done,
        r.walk.pending.len() == 0,
        r.walk.held.len() > 0,
    ensures
        run_inv(run_step(r, root, keep), root, keep),
{
    let r2 = run_step(r, root, keep);
    lemma_next_wf(r.walk);
    let n = r.held_addrs.len() - 1;
    let y = r.held_addrs[n];
    assert(r2.held_addrs == r.held_addrs.drop_last());
    assert(r2.walk.held == r.walk.held.drop_last());
    assert(r2.out == r.out.push(Ok(r.walk.held[n])));
    assert(r2.out_addrs == r.out_addrs.push(Some(y)));
    assert(r2.addrs == r.addrs);
    assert(r2.walk.visiting == r.walk.visiting);
    assert(r.walk.options.contents_first);
    assert(is_entry(root, y) && r.walk.held[n] == entry_at(root, y) && y.len() <= r.walk.options.max_depth);
    lemma_entry_at(root, y);
    assert(r.walk.options.min_depth <= r.walk.held[n].depth_of());
    assert forall|k: int| 0 <= k < r2.held_addrs.len() implies #[trigger] r2.held_addrs[k] == r.held_addrs[k]
        && r2.walk.held[k] == r.walk.held[k] by {}
    assert forall|k: int| 0 <= k < r.out_addrs.len() implies #[trigger] r2.out_addrs[k] == r.out_addrs[k]
        && r2.out[k] == r.out[k] by {}
    assert(r2.out_addrs[r.out_addrs.len() as int] == Some(y));
    assert(inv_held(r2, root, keep));
    assert(inv_out(r2, root, keep));
    lemma_prefix_refl(y);
    assert(inv_shape(r2)) by {
        assert forall|i: int, j: int|
            0 <= i < j < r2.held_addrs.len() implies !is_prefix(
            #[trigger] r2.held_addrs[j],
            #[trigger] r2.held_addrs[i],
        ) by {
            assert(r.held_addrs[i] == r2.held_addrs[i] && r.held_addrs[j] == r2.held_addrs[j]);
        }
        assert forall|i: int, j: int|
            0 <= i < r2.out_addrs.len() && 0 <= j < r2.out_addrs.len() && i != j && r2.out_addrs[i] is Some
                && r2.out_addrs[j] is Some implies (#[trigger] r2.out_addrs[i])->Some_0 != (
            #[trigger] r2.out_addrs[j])->Some_0 by {
            if i < r.out_addrs.len() && j < r.out_addrs.len() {
                assert(r.out_addrs[i] == r2.out_addrs[i] && r.out_addrs[j] == r2.out_addrs[j]);
            } else if i < r.out_addrs.len() {
                assert(r.out_addrs[i] == r2.out_addrs[i]);
                assert(r.out_addrs[i]->Some_0 != r.held_addrs[n]);
            } else {
                assert(r.out_addrs[j] == r2.out_addrs[j]);
                assert(r.out_addrs[j]->Some_0 != r.held_addrs[n]);
            }
        }
        assert forall|i: int, j: int|
            0 <= i < r2.out_addrs.len() && 0 <= j < r2.held_addrs.len() && r2.out_addrs[i] is Some implies (
            #[trigger] r2.out_addrs[i])->Some_0 != #[trigger] r2.held_addrs[j] by {
            assert(r2.held_addrs[j] == r.held_addrs[j]);
            if i < r.out_addrs.len() {
                assert(r.out_addrs[i] == r2.out_addrs[i]);
            } else {
                assert(!is_prefix(r.held_addrs[n], r.held_addrs[j]));
            }
        }
    }
    assert(inv_order(r2)) by {
        assert forall|i: int, j: int|
            0 <= i < r2.out_addrs.len() && out_dir(r2, i) && 0 <= j < r2.held_addrs.len() implies !is_prefix(
            (#[trigger] r2.out_addrs[i])->Some_0,
            #[trigger] r2.held_addrs[j],
        ) by {
            assert(r2.held_addrs[j] == r.held_addrs[j]);
            if i < r.out_addrs.len() {
                assert(r.out_addrs[i] == r2.out_addrs[i] && r.out[i] == r2.out[i]);
                assert(out_dir(r, i));
            } else {
                assert(!is_prefix(r.held_addrs[n], r.held_addrs[j]));
            }
        }
        assert forall|i: int, j: int|
            0 <= i < j < r2.out_addrs.len() && out_dir(r2, i) && r2.out_addrs[j] is Some implies !(
            is_prefix((#[trigger] r2.out_addrs[i])->Some_0, (#[trigger] r2.out_addrs[j])->Some_0)
                && r2.out_addrs[i]->Some_0.len() < r2.out_addrs[j]->Some_0.len()) by {
            assert(r.out_addrs[i] == r2.out_addrs[i] && r.out[i] == r2.out[i]);
            assert(out_dir(r, i));
            if j < r.out_addrs.len() {
                assert(r.out_addrs[j] == r2.out_addrs[j]);
            } else {
                assert(!is_prefix(r.out_addrs[i]->Some_0, r.held_addrs[n]));
            }
        }
    }
}

/// The run just after `next_step` handed out the front entry for a visit.
pub open spec fn visit_pop(r: WalkRun) -> WalkRun {
    WalkRun { walk: after_next(r.walk).0, addrs: r.addrs.drop_first(), srcs: r.srcs.drop_first(), ..r }
}

/// What holds of the visited entry at `a`, while it is neither pending, held
/// back nor yielded: it is the entry there, at the depth visited last; no
/// pending entry lies over it; nothing held back or yielded lies under it;
/// with contents first, no yielded directory lies over it.
pub open spec fn visit_facts(r: WalkRun, root: FsNode, keep: spec_fn(DirEntry) -> bool, a: Seq<int>) -> bool {
    &&& is_entry(root, a)
    &&& a.len() == r.walk.visiting
    &&& a.len() <= r.walk.options.max_depth
    &&& kept_prefixes(root, keep, a, a.len() as int)
    &&& forall|i: int| 0 <= i < r.addrs.len() && r.addrs[i] is Some ==> !is_prefix(
        (#[trigger] r.addrs[i])->Some_0,
        a,
    )
    &&& forall|j: int| 0 <= j < r.held_addrs.len() ==> !is_prefix(a, #[trigger] r.held_addrs[j])
    &&& forall|j: int| 0 <= j < r.out_addrs.len() && r.out_addrs[j] is Some ==> !is_prefix(
        a,
        (#[trigger] r.out_addrs[j])->Some_0,
    )
    &&& r.walk.options.contents_first ==> forall|i: int|
        0 <= i < r.out_addrs.len() && out_dir(r, i) ==> !is_prefix(
            (#[trigger] r.out_addrs[i])->Some_0,
            a,
        )
}

proof fn lemma_visit_pop(r: WalkRun, root: FsNode, keep: spec_fn(DirEntry) -> bool)
    requires
        run_inv(r, root, keep),
        r.walk.pending.len() > 0,
        r.walk.pending[0] is Ok,
    ensures
        run_inv(visit_pop(r), root, keep),
        visit_facts(visit_pop(r), root, keep, r.addrs[0]->Some_0),
        forall|i: int|
            0 <= i < visit_pop(r).addrs.len() && visit_pop(r).addrs[i] is Some ==> !is_prefix(
                r.addrs[0]->Some_0,
                (#[trigger] visit_pop(r).addrs[i])->Some_0,
            ),
        after_next(r.walk).1 == Step::Visit(entry_at(root, r.addrs[0]->Some_0)),
{
    let r2 = visit_pop(r);
    let a = r.addrs[0]->Some_0;
    lemma_next_wf(r.walk);
    assert(linked(root, r.walk.pending[0], r.addrs[0]));
    assert(r.addrs[0] is Some);
    lemma_entry_at(root, a);
    assert(r2.walk.visiting == a.len());
    assert(r2.walk.visiting >= r.walk.visiting);
    assert forall|k: int| 0 <= k < r2.addrs.len() implies #[trigger] r2.addrs[k] == r.addrs[k + 1]
        && r2.walk.pending[k] == r.walk.pending[k + 1] by {}
    assert(inv_pending(r2, root, keep));
    lemma_prefix_refl(a);
    assert(inv_shape(r2)) by {
        assert forall|i: int, j: int|
            0 <= i < r2.addrs.len() && 0 <= j < r2.addrs.len() && i != j && r2.addrs[i] is Some
                && r2.addrs[j] is Some implies !is_prefix(
            (#[trigger] r2.addrs[i])->Some_0,
            (#[trigger] r2.addrs[j])->Some_0,
        ) by {
            assert(r.addrs[i + 1] == r2.addrs[i] && r.addrs[j + 1] == r2.addrs[j]);
        }
        assert forall|i: int, j: int|
            0 <= i < r2.addrs.len() && 0 <= j < r2.held_addrs.len() && r2.addrs[i] is Some implies !is_prefix(
            (#[trigger] r2.addrs[i])->Some_0,
            #[trigger] r2.held_addrs[j],
        ) by {
            assert(r.addrs[i + 1] == r2.addrs[i]);
        }
        assert forall|i: int, j: int|
            0 <= i < r2.addrs.len() && 0 <= j < r2.out_addrs.len() && r2.addrs[i] is Some
                && r2.out_addrs[j] is Some implies !is_prefix(
            (#[trigger] r2.addrs[i])->Some_0,
            (#[trigger] r2.out_addrs[j])->Some_0,
        ) by {
            assert(r.addrs[i + 1] == r2.addrs[i]);
        }
    }
    assert(inv_order(r2)) by {
        if r.walk.options.contents_first {
            assert forall|i: int, j: int|
                0 <= i < r2.out_addrs.len() && out_dir(r2, i) && 0 <= j < r2.addrs.len() && r2.addrs[j] is Some
                    implies !is_prefix((#[trigger] r2.out_addrs[i])->Some_0, (#[trigger] r2.addrs[j])->Some_0) by {
                assert(r.addrs[j + 1] == r2.addrs[j]);
            }
        }
    }
    assert forall|i: int| 0 <= i < r2.addrs.len() && r2.addrs[i] is Some implies !is_prefix(
        a,
        (#[trigger] r2.addrs[i])->Some_0,
    ) by {
        assert(r.addrs[i + 1] == r2.addrs[i]);
        assert(r.addrs[0] == Some(a));
    }
    assert(visit_facts(r2, root, keep, a)) by {
        assert forall|i: int| 0 <= i < r2.addrs.len() && r2.addrs[i] is Some implies !is_prefix(
            (#[trigger] r2.addrs[i])->Some_0,
            a,
        ) by {
            assert(r.addrs[i + 1] == r2.addrs[i]);
            assert(r.addrs[0] == Some(a));
        }
        assert forall|j: int| 0 <= j < r2.held_addrs.len() implies !is_prefix(a, #[trigger] r2.held_addrs[j]) by {
            assert(r.addrs[0] == Some(a));
        }
        assert forall|j: int| 0 <= j < r2.out_addrs.len() && r2.out_addrs[j] is Some implies !is_prefix(
            a,
            (#[trigger] r2.out_addrs[j])->Some_0,
        ) by {
            assert(r.addrs[0] == Some(a));
        }
        if r.walk.options.contents_first {
            assert forall|i: int| 0 <= i < r2.out_addrs.len() && out_dir(r2, i) implies !is_prefix(
                (#[trigger] r2.out_addrs[i])->Some_0,
                a,
            ) by {
                assert(r.addrs[0] == Some(a));
            }
        }
    }
}

/// The run after the visited entry at `a` was expanded.
pub open spec fn visit_expand(rp: WalkRun, root: FsNode, a: Seq<int>) -> WalkRun {
    let (w2, addrs2) = expand_node(rp.walk, rp.addrs, node_at(root, a)->Some_0, a);
    WalkRun {
        walk: w2,
        addrs: addrs2,
        srcs: expand_srcs(rp.srcs, node_at(root, a)->Some_0, a),
        ..rp
    }
}

/// The prefixes of a child's address are those of its parent's, and the
/// parent's own.
proof fn lemma_child_prefixes(root: FsNode, keep: spec_fn(DirEntry) -> bool, a: Seq<int>, k: int)
    requires
        kept_prefixes(root, keep, a, a.len() as int),
        keep(entry_at(root, a)),
    ensures
        kept_prefixes(root, keep, a.push(k), a.len() + 1int),
{
    let c = a.push(k);
    assert forall|j: int| 0 <= j < a.len() + 1 implies #[trigger] keep(entry_at(root, c.subrange(0, j))) by {
        if j < a.len() {
            assert(c.subrange(0, j) =~= a.subrange(0, j));
        } else {
            assert(c.subrange(0, j) =~= a);
        }
    }
}

proof fn lemma_visit_expand(rp: WalkRun, root: FsNode, keep: spec_fn(DirEntry) -> bool, a: Seq<int>)
    requires
        run_inv(rp, root, keep),
        visit_facts(rp, root, keep, a),
        keep(entry_at(root, a)),
        a.len() < rp.walk.options.max_depth,
        forall|i: int|
            0 <= i < rp.addrs.len() && rp.addrs[i] is Some ==> !is_prefix(
                a,
                (#[trigger] rp.addrs[i])->Some_0,
            ),
    ensures
        run_inv(visit_expand(rp, root, a), root, keep),
        visit_facts(visit_expand(rp, root, a), root, keep, a),
        visit_expand(rp, root, a).walk.held == rp.walk.held,
        visit_expand(rp, root, a).walk.visiting == rp.walk.visiting,
        visit_expand(rp, root, a).walk.options == rp.walk.options,
        visit_expand(rp, root, a).held_addrs == rp.held_addrs,
        visit_expand(rp, root, a).out == rp.out,
        visit_expand(rp, root, a).out_addrs == rp.out_addrs,
        visit_expand(rp, root, a).addrs.len() >= rp.addrs.len(),
        forall|i: int| 0 <= i < rp.addrs.len() ==> #[trigger] visit_expand(rp, root, a).addrs[i] == rp.addrs[i],
        forall|i: int|
            0 <= i < rp.walk.pending.len() ==> #[trigger] visit_expand(rp, root, a).walk.pending[i]
                == rp.walk.pending[i],
        node_at(root, a) matches Some(FsNode::Node { path, listing: Err(err), .. }) ==> visit_expand(
            rp,
            root,
            a,
        ).walk.pending == rp.walk.pending.push(Err(error_at(path, err))),
        node_at(root, a) matches Some(FsNode::Node { listing: Ok(kids), .. }) ==> (visit_expand(rp, root, a).addrs.len()
            == rp.addrs.len() + kids.len() && forall|k: int|
            0 <= k < kids.len() ==> #[trigger] visit_expand(rp, root, a).addrs[rp.addrs.len() + k] == kid_addr(
                kids[k],
                a,
                k,
            )),
{
    let r2 = visit_expand(rp, root, a);
    let n = node_at(root, a)->Some_0;
    let w = rp.walk;
    let m = rp.addrs.len();
    match n {
        FsNode::Node { path, kind, listing: Err(err) } => {
            lemma_read_error_wf(w, path, err);
            assert(r2.addrs == rp.addrs.push(None::<Seq<int>>));
            assert forall|k: int| 0 <= k < m implies #[trigger] r2.addrs[k] == rp.addrs[k]
                && r2.walk.pending[k] == rp.walk.pending[k] by {}
            assert(r2.walk.pending[m as int] is Err);
            assert(r2.addrs[m as int] is None);
            assert(inv_pending(r2, root, keep));
            assert(inv_shape(r2)) by {
                assert forall|i: int, j: int|
                    0 <= i < r2.addrs.len() && 0 <= j < r2.addrs.len() && i != j && r2.addrs[i] is Some
                        && r2.addrs[j] is Some implies !is_prefix(
                    (#[trigger] r2.addrs[i])->Some_0,
                    (#[trigger] r2.addrs[j])->Some_0,
                ) by {
                    assert(i < m && j < m);
                }
            }
        },
        FsNode::Node { path, kind, listing: Ok(kids) } => {
            lemma_push_kids(w, rp.addrs, kids, a, 0);
            lemma_push_kids_wf(w, rp.addrs, kids, a, 0);
            assert(model_wf(r2.walk));
            let items = Seq::new(kids.len(), |k: int| kid_item(kids[0 + k], (w.visiting + 1) as usize));
            let kaddrs = Seq::new(kids.len(), |k: int| kid_addr(kids[0 + k], a, 0 + k));
            assert(r2.walk.pending == w.pending + items);
            assert(r2.addrs == rp.addrs + kaddrs);
            assert forall|k: int| 0 <= k < m implies #[trigger] r2.addrs[k] == rp.addrs[k]
                && r2.walk.pending[k] == rp.walk.pending[k] by {}
            // what a child brings
            assert forall|k: int| 0 <= k < kids.len() implies {
                &&& (#[trigger] r2.addrs[m + k]) == kid_addr(kids[k], a, k)
                &&& r2.walk.pending[m + k] == kid_item(kids[k], (w.visiting + 1) as usize)
                &&& linked(root, r2.walk.pending[m + k], r2.addrs[m + k])
                &&& (r2.addrs[m + k] is Some ==> {
                    &&& r2.addrs[m + k]->Some_0 == a.push(k)
                    &&& a.push(k).len() <= w.options.max_depth
                    &&& a.push(k).len() <= w.visiting + 1
                    &&& kept_prefixes(root, keep, a.push(k), a.push(k).len() as int)
                })
            } by {
                assert(r2.addrs[m + k] == kaddrs[k]);
                assert(r2.walk.pending[m + k] == items[k]);
                lemma_node_at_push(root, a, k);
                if let FsNode::Node { .. } = kids[k] {
                    lemma_child_prefixes(root, keep, a, k);
                    assert(is_entry(root, a.push(k)));
                }
            }
            assert(inv_pending(r2, root, keep)) by {
                assert forall|k: int| 0 <= k < r2.addrs.len() implies linked(
                    root,
                    r2.walk.pending[k],
                    #[trigger] r2.addrs[k],
                ) by {
                    if k >= m {
                        assert(r2.addrs[m + (k - m)] == r2.addrs[k]);
                    }
                }
                assert forall|k: int| 0 <= k < r2.addrs.len() && r2.addrs[k] is Some implies {
                    let c = (#[trigger] r2.addrs[k])->Some_0;
                    &&& c.len() <= r2.walk.options.max_depth
                    &&& c.len() <= r2.walk.visiting + 1
                    &&& kept_prefixes(root, keep, c, c.len() as int)
                } by {
                    if k >= m {
                        assert(r2.addrs[m + (k - m)] == r2.addrs[k]);
                    }
                }
            }
            // no child lies over `a`, nor over anything held back or yielded
            assert forall|k: int| m <= k < r2.addrs.len() && r2.addrs[k] is Some implies {
                let c = (#[trigger] r2.addrs[k])->Some_0;
                &&& c == a.push(k - m)
                &&& is_prefix(a, c)
                &&& !is_prefix(c, a)
            } by {
                assert(r2.addrs[m + (k - m)] == r2.addrs[k]);
                lemma_prefix_push(a, a, k - m);
            }
            assert(inv_shape(r2)) by {
                assert forall|i: int, j: int|
                    0 <= i < r2.addrs.len() && 0 <= j < r2.addrs.len() && i != j && r2.addrs[i] is Some
                        && r2.addrs[j] is Some implies !is_prefix(
                    (#[trigger] r2.addrs[i])->Some_0,
                    (#[trigger] r2.addrs[j])->Some_0,
                ) by {
                    let x = r2.addrs[i]->Some_0;
                    let y = r2.addrs[j]->Some_0;
                    if i >= m && j >= m {
                        if is_prefix(x, y) {
                            assert(x.len() == y.len());
                            assert(y.subrange(0, x.len() as int) =~= y);
                            assert(x == y);
                            assert(x[x.len() - 1] == i - m && y[y.len() - 1] == j - m);
                        }
                    } else if i >= m {
                        // x is a child of `a`, y an older pending entry
                        assert(rp.addrs[j] == r2.addrs[j]);
                        if is_prefix(x, y) {
                            lemma_prefix_trans(a, x, y);
                        }
                    } else if j >= m {
                        // y is a child of `a`: x over y means x over `a` or x == y
                        lemma_prefix_push(x, a, j - m);
                        assert(rp.addrs[i] == r2.addrs[i]);
                        if is_prefix(x, y) && x == y {
                            assert(is_prefix(a, x));
                        }
                    }
                }
                assert forall|i: int, j: int|
                    0 <= i < r2.addrs.len() && 0 <= j < r2.held_addrs.len() && r2.addrs[i] is Some implies !is_prefix(
                    (#[trigger] r2.addrs[i])->Some_0,
                    #[trigger] r2.held_addrs[j],
                ) by {
                    if i >= m {
                        let x = r2.addrs[i]->Some_0;
                        if is_prefix(x, r2.held_addrs[j]) {
                            lemma_prefix_trans(a, x, r2.held_addrs[j]);
                        }
                    }
                }
                assert forall|i: int, j: int|
                    0 <= i < r2.addrs.len() && 0 <= j < r2.out_addrs.len() && r2.addrs[i] is Some
                        && r2.out_addrs[j] is Some implies !is_prefix(
                    (#[trigger] r2.addrs[i])->Some_0,
                    (#[trigger] r2.out_addrs[j])->Some_0,
                ) by {
                    if i >= m {
                        let x = r2.addrs[i]->Some_0;
                        if is_prefix(x, r2.out_addrs[j]->Some_0) {
                            lemma_prefix_trans(a, x, r2.out_addrs[j]->Some_0);
                        }
                    }
                }
            }
            assert(inv_order(r2)) by {
                if w.options.contents_first {
                    assert forall|i: int, j: int|
                        0 <= i < r2.out_addrs.len() && out_dir(r2, i) && 0 <= j < r2.addrs.len()
                            && r2.addrs[j] is Some implies !is_prefix(
                        (#[trigger] r2.out_addrs[i])->Some_0,
                        (#[trigger] r2.addrs[j])->Some_0,
                    ) by {
                        if j >= m {
                            let d = r2.out_addrs[i]->Some_0;
                            lemma_prefix_push(d, a, j - m);
                            if d == a.push(j - m) {
                                lemma_prefix_push(a, a, j - m);
                            }
                        }
                    }
                }
            }
            assert(visit_facts(r2, root, keep, a)) by {
                assert forall|i: int| 0 <= i < r2.addrs.len() && r2.addrs[i] is Some implies !is_prefix(
                    (#[trigger] r2.addrs[i])->Some_0,
                    a,
                ) by {}
            }
        },
        FsNode::Unreadable { .. } => {
            assert(false);
        },
    }
}

/// The run after the visited entry `e`, at `a`, was settled.
pub open spec fn visit_settle(rx: WalkRun, a: Seq<int>, e: DirEntry) -> WalkRun {
    let (w3, y) = after_settle(rx.walk, e);
    match y {
        Some(e2) => WalkRun {
            walk: w3,
            out: rx.out.push(Ok(e2)),
            out_addrs: rx.out_addrs.push(Some(a)),
            out_srcs: rx.out_srcs.push(a),
            ..rx
        },
        None => if w3.held.len() > rx.walk.held.len() {
            WalkRun { walk: w3, held_addrs: rx.held_addrs.push(a), ..rx }
        } else {
            WalkRun { walk: w3, ..rx }
        },
    }
}

proof fn lemma_visit_settle(rx: WalkRun, root: FsNode, keep: spec_fn(DirEntry) -> bool, a: Seq<int>)
    requires
        run_inv(rx, root, keep),
        visit_facts(rx, root, keep, a),
        keep(entry_at(root, a)),
    ensures
        run_inv(visit_settle(rx, a, entry_at(root, a)), root, keep),
        ({
            let r2 = visit_settle(rx, a, entry_at(root, a));
            &&& r2.addrs == rx.addrs
            &&& r2.done == rx.done
            &&& r2.walk.pending == rx.walk.pending
            &&& r2.walk.options == rx.walk.options
            &&& r2.out_addrs.len() >= rx.out_addrs.len()
            &&& r2.held_addrs.len() >= rx.held_addrs.len()
            &&& forall|i: int| 0 <= i < rx.out_addrs.len() ==> #[trigger] r2.out_addrs[i] == rx.out_addrs[i]
            &&& forall|i: int| 0 <= i < rx.held_addrs.len() ==> #[trigger] r2.held_addrs[i] == rx.held_addrs[i]
            &&& rx.walk.options.min_depth <= a.len() ==> (r2.out_addrs.last() == Some(a) && r2.out_addrs.len()
                == rx.out_addrs.len() + 1) || (r2.held_addrs.last() == a && r2.held_addrs.len() == rx.held_addrs.len() + 1)
        }),
{
    let e = entry_at(root, a);
    let r2 = visit_settle(rx, a, e);
    lemma_entry_at(root, a);
    lemma_settle_wf(rx.walk, e);
    lemma_prefix_refl(a);
    assert(kept_prefixes(root, keep, a, a.len() + 1int)) by {
        assert forall|j: int| 0 <= j < a.len() + 1 implies #[trigger] keep(entry_at(root, a.subrange(0, j))) by {
            if j == a.len() {
                assert(a.subrange(0, j) =~= a);
            }
        }
    }
    let (w3, y) = after_settle(rx.walk, e);
    if y is Some {
        let n = rx.out_addrs.len();
        assert(r2.out_addrs == rx.out_addrs.push(Some(a)));
        assert(r2.out == rx.out.push(Ok::<DirEntry, WalkError>(e)));
        assert forall|k: int| 0 <= k < n implies #[trigger] r2.out_addrs[k] == rx.out_addrs[k]
            && r2.out[k] == rx.out[k] by {}
        assert(r2.out_addrs[n as int] == Some(a));
        assert(inv_out(r2, root, keep));
        assert(inv_shape(r2)) by {
            assert forall|i: int, j: int|
                0 <= i < r2.addrs.len() && 0 <= j < r2.out_addrs.len() && r2.addrs[i] is Some
                    && r2.out_addrs[j] is Some implies !is_prefix(
                (#[trigger] r2.addrs[i])->Some_0,
                (#[trigger] r2.out_addrs[j])->Some_0,
            ) by {}
            assert forall|i: int, j: int|
                0 <= i < r2.out_addrs.len() && 0 <= j < r2.out_addrs.len() && i != j && r2.out_addrs[i] is Some
                    && r2.out_addrs[j] is Some implies (#[trigger] r2.out_addrs[i])->Some_0 != (
                #[trigger] r2.out_addrs[j])->Some_0 by {}
            assert forall|i: int, j: int|
                0 <= i < r2.out_addrs.len() && 0 <= j < r2.held_addrs.len() && r2.out_addrs[i] is Some implies (
                #[trigger] r2.out_addrs[i])->Some_0 != #[trigger] r2.held_addrs[j] by {}
        }
        assert(!out_dir(r2, n as int) || !rx.walk.options.contents_first);
        assert(inv_order(r2)) by {
            if !rx.walk.options.contents_first {
                assert forall|i: int, j: int|
                    0 <= i < j < r2.out_addrs.len() && r2.out_addrs[i] is Some && r2.out_addrs[j] is Some implies (
                    #[trigger] r2.out_addrs[i])->Some_0.len() <= (#[trigger] r2.out_addrs[j])->Some_0.len() by {}
            } else {
                assert forall|i: int, j: int|
                    0 <= i < r2.out_addrs.len() && out_dir(r2, i) && 0 <= j < r2.addrs.len() && r2.addrs[j] is Some
                        implies !is_prefix((#[trigger] r2.out_addrs[i])->Some_0, (#[trigger] r2.addrs[j])->Some_0) by {
                    assert(out_dir(rx, i));
                }
                assert forall|i: int, j: int|
                    0 <= i < r2.out_addrs.len() && out_dir(r2, i) && 0 <= j < r2.held_addrs.len() implies !is_prefix(
                    (#[trigger] r2.out_addrs[i])->Some_0,
                    #[trigger] r2.held_addrs[j],
                ) by {
                    assert(out_dir(rx, i));
                }
                assert forall|i: int, j: int|
                    0 <= i < j < r2.out_addrs.len() && out_dir(r2, i) && r2.out_addrs[j] is Some implies !(
                    is_prefix((#[trigger] r2.out_addrs[i])->Some_0, (#[trigger] r2.out_addrs[j])->Some_0)
                        && r2.out_addrs[i]->Some_0.len() < r2.out_addrs[j]->Some_0.len()) by {
                    assert(out_dir(rx, i));
                }
            }
        }
    } else if w3.held.len() > rx.walk.held.len() {
        let n = rx.held_addrs.len();
        assert(r2.held_addrs == rx.held_addrs.push(a));
        assert(r2.walk.held == rx.walk.held.push(e));
        assert forall|k: int| 0 <= k < n implies #[trigger] r2.held_addrs[k] == rx.held_addrs[k]
            && r2.walk.held[k] == rx.walk.held[k] by {}
        assert(r2.held_addrs[n as int] == a);
        assert(inv_held(r2, root, keep));
        assert(inv_shape(r2)) by {
            assert forall|i: int, j: int|
                0 <= i < r2.addrs.len() && 0 <= j < r2.held_addrs.len() && r2.addrs[i] is Some implies !is_prefix(
                (#[trigger] r2.addrs[i])->Some_0,
                #[trigger] r2.held_addrs[j],
            ) by {}
            assert forall|i: int, j: int|
                0 <= i < j < r2.held_addrs.len() implies !is_prefix(
                #[trigger] r2.held_addrs[j],
                #[trigger] r2.held_addrs[i],
            ) by {}
            assert forall|i: int, j: int|
                0 <= i < r2.out_addrs.len() && 0 <= j < r2.held_addrs.len() && r2.out_addrs[i] is Some implies (
                #[trigger] r2.out_addrs[i])->Some_0 != #[trigger] r2.held_addrs[j] by {}
        }
        assert(inv_order(r2)) by {
            assert forall|i: int, j: int|
                0 <= i < r2.out_addrs.len() && out_dir(r2, i) && 0 <= j < r2.held_addrs.len() implies !is_prefix(
                (#[trigger] r2.out_addrs[i])->Some_0,
                #[trigger] r2.held_addrs[j],
            ) by {}
        }
    } else {
        assert(w3 == rx.walk);
        assert(r2 == rx);
    }
}

proof fn lemma_run_step(r: WalkRun, root: FsNode, keep: spec_fn(DirEntry) -> bool)
    requires
        run_inv(r, root, keep),
    ensures
        run_inv(run_step(r, root, keep), root, keep),
{
    if r.done {
    } else if r.walk.pending.len() == 0 {
        if r.walk.held.len() > 0 {
            lemma_step_held(r, root, keep);
        } else {
            assert(run_step(r, root, keep) == WalkRun { done: true, ..r });
        }
    } else if r.walk.pending[0] is Err {
        lemma_step_error(r, root, keep);
    } else {
        lemma_visit_pop(r, root, keep);
        let rp = visit_pop(r);
        let a = r.addrs[0]->Some_0;
        let e = entry_at(root, a);
        lemma_entry_at(root, a);
        if keep(e) {
            let rx = if expands(rp.walk, e) {
                lemma_visit_expand(rp, root, keep, a);
                visit_expand(rp, root, a)
            } else {
                rp
            };
            lemma_visit_settle(rx, root, keep, a);
            assert(run_step(r, root, keep) == visit_settle(rx, a, e));
        } else {
            assert(run_step(r, root, keep) == rp);
        }
    }
}

proof fn lemma_run_inv(root: FsNode, options: WalkOptions, keep: spec_fn(DirEntry) -> bool, k: nat)
    ensures
        run_inv(run(root, options, keep, k), root, keep),
        run(root, options, keep, k).walk.options == options,
    decreases k,
{
    if k == 0 {
        lemma_run_start(root, options, keep);
    } else {
        lemma_run_inv(root, options, keep, (k - 1) as nat);
        lemma_run_step(run(root, options, keep, (k - 1) as nat), root, keep);
        lemma_run_step_options(run(root, options, keep, (k - 1) as nat), root, keep);
    }
}

proof fn lemma_run_step_options(r: WalkRun, root: FsNode, keep: spec_fn(DirEntry) -> bool)
    requires
        run_inv(r, root, keep),
    ensures
        run_step(r, root, keep).walk.options == r.walk.options,
{
    if !r.done && r.walk.pending.len() > 0 && r.walk.pending[0] is Ok {
        lemma_visit_pop(r, root, keep);
        let rp = visit_pop(r);
        let a = r.addrs[0]->Some_0;
        let e = entry_at(root, a);
        lemma_entry_at(root, a);
        if keep(e) && expands(rp.walk, e) {
            lemma_visit_expand(rp, root, keep, a);
        }
    }
}

/// Every entry a walk of `root` yields is the entry at its address in the
/// tree, at the depth of that address, inside the depth window; the filter
/// `keep` accepted it and every directory above it (the filter prunes whole
/// subtrees, even above `min_depth`); and no address is yielded twice.  This
/// holds after any number of rounds.
pub proof fn law_walk_yields_accepted_entries_once(
    root: FsNode,
    options: WalkOptions,
    keep: spec_fn(DirEntry) -> bool,
    k: nat,
)
    ensures
        ({
            let r = run(root, options, keep, k);
            &&& r.out_addrs.len() == r.out.len()
            &&& forall|i: int|
                0 <= i < r.out.len() && r.out[i] is Ok ==> {
                    let a = (#[trigger] r.out_addrs[i])->Some_0;
                    &&& r.out_addrs[i] is Some
                    &&& is_entry(root, a)
                    &&& r.out[i] == Ok::<DirEntry, WalkError>(entry_at(root, a))
                    &&& entry_at(root, a).depth_of() == a.len()
                    &&& options.min_depth <= a.len() <= options.max_depth
                    &&& forall|j: int| 0 <= j <= a.len() ==> #[trigger] keep(entry_at(root, a.subrange(0, j)))
                }
            &&& forall|i: int, j: int|
                0 <= i < r.out.len() && 0 <= j < r.out.len() && i != j && r.out[i] is Ok
                    && r.out[j] is Ok ==> (#[trigger] r.out_addrs[i]) != (#[trigger] r.out_addrs[j])
        }),
{
    lemma_run_inv(root, options, keep, k);
    let r = run(root, options, keep, k);
    assert forall|i: int| 0 <= i < r.out.len() && r.out[i] is Ok implies {
        let a = (#[trigger] r.out_addrs[i])->Some_0;
        &&& r.out_addrs[i] is Some
        &&& is_entry(root, a)
        &&& r.out[i] == Ok::<DirEntry, WalkError>(entry_at(root, a))
        &&& entry_at(root, a).depth_of() == a.len()
        &&& options.min_depth <= a.len() <= options.max_depth
        &&& forall|j: int| 0 <= j <= a.len() ==> #[trigger] keep(entry_at(root, a.subrange(0, j)))
    } by {
        assert(linked(root, r.out[i], r.out_addrs[i]));
        let a = r.out_addrs[i]->Some_0;
        lemma_entry_at(root, a);
    }
}

/// Without contents first a walk is breadth first: yielded entries come in
/// order of depth, so a directory comes before everything under it.
pub proof fn law_walk_breadth_first(root: FsNode, options: WalkOptions, keep: spec_fn(DirEntry) -> bool, k: nat)
    requires
        !options.contents_first,
    ensures
        ({
            let r = run(root, options, keep, k);
            &&& forall|i: int, j: int|
                0 <= i < j < r.out.len() && r.out[i] is Ok && r.out[j] is Ok ==> (
                #[trigger] r.out[i])->Ok_0.depth_of() <= (#[trigger] r.out[j])->Ok_0.depth_of()
            &&& forall|i: int, j: int|
                0 <= i < r.out.len() && 0 <= j < r.out.len() && r.out[i] is Ok && r.out[j] is Ok
                    && is_prefix((#[trigger] r.out_addrs[i])->Some_0, (#[trigger] r.out_addrs[j])->Some_0)
                    && r.out_addrs[i]->Some_0.len() < r.out_addrs[j]->Some_0.len() ==> i < j
        }),
{
    lemma_run_inv(root, options, keep, k);
    let r = run(root, options, keep, k);
    assert forall|i: int, j: int|
        0 <= i < j < r.out.len() && r.out[i] is Ok && r.out[j] is Ok implies (
        #[trigger] r.out[i])->Ok_0.depth_of() <= (#[trigger] r.out[j])->Ok_0.depth_of() by {
        assert(linked(root, r.out[i], r.out_addrs[i]));
        assert(linked(root, r.out[j], r.out_addrs[j]));
        lemma_entry_at(root, r.out_addrs[i]->Some_0);
        lemma_entry_at(root, r.out_addrs[j]->Some_0);
    }
    assert forall|i: int, j: int|
        0 <= i < r.out.len() && 0 <= j < r.out.len() && r.out[i] is Ok && r.out[j] is Ok
            && is_prefix((#[trigger] r.out_addrs[i])->Some_0, (#[trigger] r.out_addrs[j])->Some_0)
            && r.out_addrs[i]->Some_0.len() < r.out_addrs[j]->Some_0.len() implies i < j by {
        assert(linked(root, r.out[i], r.out_addrs[i]));
        assert(linked(root, r.out[j], r.out_addrs[j]));
        if j < i {
            assert(r.out_addrs[j]->Some_0.len() <= r.out_addrs[i]->Some_0.len());
        }
    }
}

/// With contents first, a directory is yielded after everything under it
/// that is yielded at all.
pub proof fn law_walk_contents_first(root: FsNode, options: WalkOptions, keep: spec_fn(DirEntry) -> bool, k: nat)
    requires
        options.contents_first,
    ensures
        ({
            let r = run(root, options, keep, k);
            forall|i: int, j: int|
                0 <= i < r.out.len() && 0 <= j < r.out.len() && out_dir(r, i) && r.out[j] is Ok
                    && is_prefix((#[trigger] r.out_addrs[i])->Some_0, (#[trigger] r.out_addrs[j])->Some_0)
                    && r.out_addrs[i]->Some_0.len() < r.out_addrs[j]->Some_0.len() ==> j < i
        }),
{
    lemma_run_inv(root, options, keep, k);
    let r = run(root, options, keep, k);
    assert forall|i: int, j: int|
        0 <= i < r.out.len() && 0 <= j < r.out.len() && out_dir(r, i) && r.out[j] is Ok
            && is_prefix((#[trigger] r.out_addrs[i])->Some_0, (#[trigger] r.out_addrs[j])->Some_0)
            && r.out_addrs[i]->Some_0.len() < r.out_addrs[j]->Some_0.len() implies j < i by {
        assert(linked(root, r.out[i], r.out_addrs[i]));
        assert(linked(root, r.out[j], r.out_addrs[j]));
        if i == j {
        }
    }
}

/// Every prefix of an address that reaches a node reaches a node too.
proof fn lemma_node_at_take(root: FsNode, a: Seq<int>, j: int)
    requires
        node_at(root, a) is Some,
        0 <= j <= a.len(),
    ensures
        node_at(root, a.subrange(0, j)) is Some,
        j < a.len() ==> (node_at(root, a.subrange(0, j)) matches Some(FsNode::Node { listing: Ok(kids), .. })
            && 0 <= a[j] < kids.len() && node_at(root, a.subrange(0, j + 1)) == Some(kids[a[j]])),
    decreases a.len() - j,
{
    if j == a.len() {
        assert(a.subrange(0, j) =~= a);
    } else {
        lemma_node_at_take(root, a, j + 1);
        assert(a.subrange(0, j).push(a[j]) =~= a.subrange(0, j + 1));
        lemma_node_at_push(root, a.subrange(0, j), a[j]);
    }
}

/// The entry at `a` is reached by a walk of `root`: it exists, lies no deeper
/// than `max_depth`, and every entry above it is a directory the filter
/// `keep` accepts.
pub open spec fn reached(root: FsNode, keep: spec_fn(DirEntry) -> bool, options: WalkOptions, a: Seq<int>) -> bool {
    &&& is_entry(root, a)
    &&& a.len() <= options.max_depth
    &&& forall|j: int|
        0 <= j < a.len() ==> #[trigger] keep(entry_at(root, a.subrange(0, j))) && entry_at(
            root,
            a.subrange(0, j),
        ).kind_of() == FileKind::Dir
}

/// The walk owes the entry at `a`: it is reached, accepted, and no
/// shallower than `min_depth`.
pub open spec fn owed(root: FsNode, keep: spec_fn(DirEntry) -> bool, options: WalkOptions, a: Seq<int>) -> bool {
    &&& reached(root, keep, options, a)
    &&& keep(entry_at(root, a))
    &&& options.min_depth <= a.len()
}

/// The entry at `a` is still to come (something pending lies over it or is
/// it), is held back, or was yielded.
pub open spec fn covered(r: WalkRun, a: Seq<int>) -> bool {
    ||| exists|i: int| 0 <= i < r.addrs.len() && r.addrs[i] is Some && is_prefix(
        (#[trigger] r.addrs[i])->Some_0,
        a,
    )
    ||| exists|j: int| 0 <= j < r.held_addrs.len() && #[trigger] r.held_addrs[j] == a
    ||| exists|i: int| 0 <= i < r.out_addrs.len() && #[trigger] r.out_addrs[i] == Some(a)
}

/// Every owed entry is covered, and once done nothing is pending or held back.
pub open spec fn inv_cover(r: WalkRun, root: FsNode, keep: spec_fn(DirEntry) -> bool) -> bool {
    &&& forall|a: Seq<int>| #[trigger] owed(root, keep, r.walk.options, a) ==> covered(r, a)
    &&& r.done ==> r.walk.pending.len() == 0 && r.walk.held.len() == 0
}

proof fn lemma_cover_start(root: FsNode, options: WalkOptions, keep: spec_fn(DirEntry) -> bool)
    ensures
        inv_cover(run_start(root, options), root, keep),
{
    let r = run_start(root, options);
    assert forall|a: Seq<int>| #[trigger] owed(root, keep, r.walk.options, a) implies covered(r, a) by {
        let e = Seq::<int>::empty();
        if let FsNode::Node { .. } = root {
            assert(r.addrs[0] == Some(e));
            assert(a.subrange(0, 0) =~= e);
            assert(is_prefix(e, a));
        } else {
            if a.len() > 0 {
                assert(node_at(root, a) is None);
            }
            assert(node_at(root, a) == Some(root));
        }
    }
}

proof fn lemma_cover_held(r: WalkRun, root: FsNode, keep: spec_fn(DirEntry) -> bool)
    requires
        run_inv(r, root, keep),
        inv_cover(r, root, keep),
        !r.done,
        r.walk.pending.len() == 0,
        r.walk.held.len() > 0,
    ensures
        forall|a: Seq<int>| #[trigger] owed(root, keep, r.walk.options, a) ==> covered(run_step(r, root, keep), a),
{
    let r2 = run_step(r, root, keep);
    let n = r.held_addrs.len() - 1;
    assert(r2.held_addrs == r.held_addrs.drop_last());
    assert(r2.out_addrs == r.out_addrs.push(Some(r.held_addrs[n])));
    assert forall|a: Seq<int>| #[trigger] owed(root, keep, r.walk.options, a) implies covered(r2, a) by {
        assert(covered(r, a));
        if exists|j: int| 0 <= j < r.held_addrs.len() && #[trigger] r.held_addrs[j] == a {
            let j = choose|j: int| 0 <= j < r.held_addrs.len() && #[trigger] r.held_addrs[j] == a;
            if j == n {
                assert(r2.out_addrs[r.out_addrs.len() as int] == Some(a));
            } else {
                assert(r2.held_addrs[j] == a);
            }
        } else if exists|i: int| 0 <= i < r.out_addrs.len() && #[trigger] r.out_addrs[i] == Some(a) {
            let i = choose|i: int| 0 <= i < r.out_addrs.len() && #[trigger] r.out_addrs[i] == Some(a);
            assert(r2.out_addrs[i] == Some(a));
        }
    }
}

proof fn lemma_cover_error(r: WalkRun, root: FsNode, keep: spec_fn(DirEntry) -> bool)
    requires
        run_inv(r, root, keep),
        inv_cover(r, root, keep),
        !r.done,
        r.walk.pending.len() > 0,
        r.walk.pending[0] is Err,
    ensures
        forall|a: Seq<int>| #[trigger] owed(root, keep, r.walk.options, a) ==> covered(run_step(r, root, keep), a),
{
    let r2 = run_step(r, root, keep);
    assert(r2.addrs == r.addrs.drop_first());
    assert(r2.out_addrs == r.out_addrs.push(None::<Seq<int>>));
    assert(r2.held_addrs == r.held_addrs);
    assert(linked(root, r.walk.pending[0], r.addrs[0]));
    assert(r.addrs[0] is None);
    assert forall|a: Seq<int>| #[trigger] owed(root, keep, r.walk.options, a) implies covered(r2, a) by {
        assert(covered(r, a));
        if exists|i: int| 0 <= i < r.addrs.len() && r.addrs[i] is Some && is_prefix(
            (#[trigger] r.addrs[i])->Some_0,
            a,
        ) {
            let i = choose|i: int| 0 <= i < r.addrs.len() && r.addrs[i] is Some && is_prefix(
                (#[trigger] r.addrs[i])->Some_0,
                a,
            );
            assert(r2.addrs[i - 1] == r.addrs[i]);
        } else if exists|j: int| 0 <= j < r.held_addrs.len() && #[trigger] r.held_addrs[j] == a {
        } else {
            let i = choose|i: int| 0 <= i < r.out_addrs.len() && #[trigger] r.out_addrs[i] == Some(a);
            assert(r2.out_addrs[i] == Some(a));
        }
    }
}

/// The entry visited covered `a`, which lies strictly under it: it is
/// expanded and queues the child on the way to `a`.
proof fn lemma_cover_child(r: WalkRun, root: FsNode, keep: spec_fn(DirEntry) -> bool, a: Seq<int>)
    requires
        run_inv(r, root, keep),
        r.walk.pending.len() > 0,
        r.walk.pending[0] is Ok,
        reached(root, keep, r.walk.options, a),
        is_prefix(r.addrs[0]->Some_0, a),
        r.addrs[0]->Some_0.len() < a.len(),
    ensures
        ({
            let p = r.addrs[0]->Some_0;
            let rp = visit_pop(r);
            &&& keep(entry_at(root, p))
            &&& expands(rp.walk, entry_at(root, p))
            &&& exists|i: int| 0 <= i < visit_expand(rp, root, p).addrs.len() && visit_expand(rp, root, p).addrs[i] is Some
                && is_prefix((#[trigger] visit_expand(rp, root, p).addrs[i])->Some_0, a)
        }),
{
    lemma_visit_pop(r, root, keep);
    let rp = visit_pop(r);
    let p = r.addrs[0]->Some_0;
    let e = entry_at(root, p);
    lemma_entry_at(root, p);
    let m = rp.addrs.len();
    let k = a[p.len() as int];
    assert(keep(entry_at(root, a.subrange(0, p.len() as int))));
    assert(a.subrange(0, p.len() as int) == p);
    lemma_node_at_take(root, a, p.len() as int);
    assert(expands(rp.walk, e));
    lemma_visit_expand(rp, root, keep, p);
    let rx = visit_expand(rp, root, p);
    let kids = node_at(root, p)->Some_0->Node_listing->Ok_0;
    assert(p.push(k) =~= a.subrange(0, p.len() + 1int));
    if p.len() + 1 < a.len() {
        lemma_node_at_take(root, a, p.len() + 1int);
    } else {
        assert(a.subrange(0, p.len() + 1int) =~= a);
    }
    assert(kids[k] is Node);
    assert(rx.addrs[m + k] == kid_addr(kids[k], p, k));
    assert(is_prefix(p.push(k), a)) by {
        assert(a.subrange(0, p.push(k).len() as int) =~= p.push(k));
    }
    assert(rx.addrs[m + k] is Some && is_prefix(rx.addrs[m + k]->Some_0, a));
}

proof fn lemma_cover_visit(r: WalkRun, root: FsNode, keep: spec_fn(DirEntry) -> bool)
    requires
        run_inv(r, root, keep),
        inv_cover(r, root, keep),
        !r.done,
        r.walk.pending.len() > 0,
        r.walk.pending[0] is Ok,
    ensures
        forall|a: Seq<int>| #[trigger] owed(root, keep, r.walk.options, a) ==> covered(run_step(r, root, keep), a),
{
    let r2 = run_step(r, root, keep);
    lemma_visit_pop(r, root, keep);
    let rp = visit_pop(r);
    let p = r.addrs[0]->Some_0;
    let e = entry_at(root, p);
    lemma_entry_at(root, p);
    if keep(e) {
        let ex = expands(rp.walk, e);
        let rx = if ex {
            lemma_visit_expand(rp, root, keep, p);
            visit_expand(rp, root, p)
        } else {
            rp
        };
        lemma_visit_settle(rx, root, keep, p);
        assert(r2 == visit_settle(rx, p, e));
        assert forall|a: Seq<int>| #[trigger] owed(root, keep, r.walk.options, a) implies covered(r2, a) by {
            assert(covered(r, a));
            if exists|i: int| 0 <= i < r.addrs.len() && r.addrs[i] is Some && is_prefix(
                (#[trigger] r.addrs[i])->Some_0,
                a,
            ) {
                let i = choose|i: int| 0 <= i < r.addrs.len() && r.addrs[i] is Some && is_prefix(
                    (#[trigger] r.addrs[i])->Some_0,
                    a,
                );
                if i > 0 {
                    assert(rp.addrs[i - 1] == r.addrs[i]);
                    assert(rx.addrs[i - 1] == rp.addrs[i - 1]);
                    assert(r2.addrs[i - 1] == r.addrs[i]);
                } else if p.len() == a.len() {
                    assert(a.subrange(0, p.len() as int) =~= a);
                    assert(p == a);
                    if r2.out_addrs.last() == Some(a) && r2.out_addrs.len() == rx.out_addrs.len() + 1 {
                        assert(r2.out_addrs[r2.out_addrs.len() - 1] == Some(a));
                    } else {
                        assert(r2.held_addrs[r2.held_addrs.len() - 1] == a);
                    }
                } else {
                    lemma_cover_child(r, root, keep, a);
                    let j = choose|j: int| 0 <= j < rx.addrs.len() && rx.addrs[j] is Some
                        && is_prefix((#[trigger] rx.addrs[j])->Some_0, a);
                    assert(r2.addrs[j] == rx.addrs[j]);
                }
            } else if exists|j: int| 0 <= j < r.held_addrs.len() && #[trigger] r.held_addrs[j] == a {
                let j = choose|j: int| 0 <= j < r.held_addrs.len() && #[trigger] r.held_addrs[j] == a;
                assert(r2.held_addrs[j] == a);
            } else {
                let i = choose|i: int| 0 <= i < r.out_addrs.len() && #[trigger] r.out_addrs[i] == Some(a);
                assert(r2.out_addrs[i] == Some(a));
            }
        }
    } else {
        assert(r2 == rp);
        assert forall|a: Seq<int>| #[trigger] owed(root, keep, r.walk.options, a) implies covered(r2, a) by {
            assert(covered(r, a));
            if exists|i: int| 0 <= i < r.addrs.len() && r.addrs[i] is Some && is_prefix(
                (#[trigger] r.addrs[i])->Some_0,
                a,
            ) {
                let i = choose|i: int| 0 <= i < r.addrs.len() && r.addrs[i] is Some && is_prefix(
                    (#[trigger] r.addrs[i])->Some_0,
                    a,
                );
                if i > 0 {
                    assert(r2.addrs[i - 1] == r.addrs[i]);
                } else {
                    // the filter rejected `p`, which lies over `a` or is `a`: `a` is not owed
                    assert(a.subrange(0, p.len() as int) == p);
                    if p.len() < a.len() {
                        assert(keep(entry_at(root, a.subrange(0, p.len() as int))));
                    } else {
                        assert(a.subrange(0, p.len() as int) =~= a);
                    }
                    assert(false);
                }
            }
        }
    }
}

proof fn lemma_cover_step(r: WalkRun, root: FsNode, keep: spec_fn(DirEntry) -> bool)
    requires
        run_inv(r, root, keep),
        inv_cover(r, root, keep),
    ensures
        inv_cover(run_step(r, root, keep), root, keep),
{
    lemma_run_step_options(r, root, keep);
    if r.done {
    } else if r.walk.pending.len() == 0 {
        if r.walk.held.len() > 0 {
            lemma_cover_held(r, root, keep);
        } else {
            assert(run_step(r, root, keep) == WalkRun { done: true, ..r });
        }
    } else if r.walk.pending[0] is Err {
        lemma_cover_error(r, root, keep);
        lemma_next_wf(r.walk);
    } else {
        lemma_cover_visit(r, root, keep);
    }
    let r2 = run_step(r, root, keep);
    if r2.done && !r.done {
        assert(r.walk.pending.len() == 0 && r.walk.held.len() == 0);
        assert(r2.walk == r.walk);
    }
}

proof fn lemma_cover_run(root: FsNode, options: WalkOptions, keep: spec_fn(DirEntry) -> bool, k: nat)
    ensures
        inv_cover(run(root, options, keep, k), root, keep),
    decreases k,
{
    lemma_run_inv(root, options, keep, k);
    if k == 0 {
        lemma_cover_start(root, options, keep);
    } else {
        lemma_cover_run(root, options, keep, (k - 1) as nat);
        lemma_run_inv(root, options, keep, (k - 1) as nat);
        lemma_cover_step(run(root, options, keep, (k - 1) as nat), root, keep);
    }
}

/// A walk that is done has yielded every entry it owes: each entry that
/// exists no deeper than `max_depth` and no shallower than `min_depth`,
/// that the filter accepts, and all of whose ancestors are directories the
/// filter accepts (entries shallower than `min_depth` are still traversed).
/// With the law above, a finished walk yields exactly these entries, each
/// once; `law_walk_terminates` shows that every walk finishes.
pub proof fn law_walk_complete(root: FsNode, options: WalkOptions, keep: spec_fn(DirEntry) -> bool, k: nat)
    ensures
        ({
            let r = run(root, options, keep, k);
            r.done ==> forall|a: Seq<int>|
                #[trigger] owed(root, keep, options, a) ==> exists|i: int|
                    0 <= i < r.out.len() && #[trigger] r.out_addrs[i] == Some(a) && r.out[i] == Ok::<
                        DirEntry,
                        WalkError,
                    >(entry_at(root, a))
        }),
{
    lemma_cover_run(root, options, keep, k);
    lemma_run_inv(root, options, keep, k);
    let r = run(root, options, keep, k);
    if r.done {
        assert forall|a: Seq<int>| #[trigger] owed(root, keep, options, a) implies exists|i: int|
            0 <= i < r.out.len() && #[trigger] r.out_addrs[i] == Some(a) && r.out[i] == Ok::<
                DirEntry,
                WalkError,
            >(entry_at(root, a)) by {
            assert(covered(r, a));
            let i = choose|i: int| 0 <= i < r.out_addrs.len() && #[trigger] r.out_addrs[i] == Some(a);
            assert(linked(root, r.out[i], r.out_addrs[i]));
        }
    }
}

/// The item is the error made from the node at `s`: the error reading its
/// metadata or, for a directory, the error reading its listing.
pub open spec fn err_from(root: FsNode, s: Seq<int>, item: Result<DirEntry, WalkError>) -> bool {
    match node_at(root, s) {
        Some(FsNode::Node { path, listing: Err(err), .. }) => item == Err::<DirEntry, WalkError>(
            error_at(path, err),
        ),
        Some(FsNode::Unreadable { path, err }) => item == Err::<DirEntry, WalkError>(error_at(path, err)),
        _ => false,
    }
}

/// Pending and yielded errors agree with their sources; no two of them share
/// a source; no pending entry lies over the source of one.
pub open spec fn inv_srcs(r: WalkRun, root: FsNode) -> bool {
    &&& r.srcs.len() == r.walk.pending.len()
    &&& r.out_srcs.len() == r.out.len()
    &&& forall|k: int|
        0 <= k < r.srcs.len() && r.walk.pending[k] is Err ==> err_from(
            root,
            #[trigger] r.srcs[k],
            r.walk.pending[k],
        )
    &&& forall|k: int|
        0 <= k < r.out_srcs.len() && r.out[k] is Err ==> err_from(root, #[trigger] r.out_srcs[k], r.out[k])
    &&& forall|i: int, j: int|
        0 <= i < r.srcs.len() && 0 <= j < r.srcs.len() && i != j && r.walk.pending[i] is Err
            && r.walk.pending[j] is Err ==> #[trigger] r.srcs[i] != #[trigger] r.srcs[j]
    &&& forall|i: int, j: int|
        0 <= i < r.out_srcs.len() && 0 <= j < r.out_srcs.len() && i != j && r.out[i] is Err
            && r.out[j] is Err ==> #[trigger] r.out_srcs[i] != #[trigger] r.out_srcs[j]
    &&& forall|i: int, j: int|
        0 <= i < r.srcs.len() && 0 <= j < r.out_srcs.len() && r.walk.pending[i] is Err
            && r.out[j] is Err ==> #[trigger] r.srcs[i] != #[trigger] r.out_srcs[j]
    &&& forall|i: int, j: int|
        0 <= i < r.addrs.len() && r.addrs[i] is Some && 0 <= j < r.srcs.len() && r.walk.pending[j] is Err
            ==> !is_prefix((#[trigger] r.addrs[i])->Some_0, #[trigger] r.srcs[j])
    &&& forall|i: int, j: int|
        0 <= i < r.addrs.len() && r.addrs[i] is Some && 0 <= j < r.out_srcs.len() && r.out[j] is Err
            ==> !is_prefix((#[trigger] r.addrs[i])->Some_0, #[trigger] r.out_srcs[j])
}

proof fn lemma_srcs_start(root: FsNode, options: WalkOptions)
    ensures
        inv_srcs(run_start(root, options), root),
{
    let r = run_start(root, options);
    assert(node_at(root, Seq::<int>::empty()) == Some(root));
}

/// The pending error at the front is yielded.
proof fn lemma_srcs_error(r: WalkRun, root: FsNode, keep: spec_fn(DirEntry) -> bool)
    requires
        run_inv(r, root, keep),
        inv_srcs(r, root),
        !r.done,
        r.walk.pending.len() > 0,
        r.walk.pending[0] is Err,
    ensures
        inv_srcs(run_step(r, root, keep), root),
{
    let r2 = run_step(r, root, keep);
    assert(linked(root, r.walk.pending[0], r.addrs[0]));
    assert(r2.walk.pending == r.walk.pending.drop_first());
    assert(r2.addrs == r.addrs.drop_first());
    assert(r2.srcs == r.srcs.drop_first());
    assert(r2.out == r.out.push(r.walk.pending[0]));
    assert(r2.out_srcs == r.out_srcs.push(r.srcs[0]));
    let n = r.out.len() as int;
    assert forall|k: int| 0 <= k < r2.srcs.len() implies #[trigger] r2.srcs[k] == r.srcs[k + 1]
        && r2.walk.pending[k] == r.walk.pending[k + 1] && r2.addrs[k] == r.addrs[k + 1] by {}
    assert forall|k: int| 0 <= k < r2.out_srcs.len() implies #[trigger] r2.out_srcs[k] == (if k < n {
        r.out_srcs[k]
    } else {
        r.srcs[0]
    }) && r2.out[k] == (if k < n {
        r.out[k]
    } else {
        r.walk.pending[0]
    }) by {}
    assert forall|k: int| 0 <= k < r2.out_srcs.len() && r2.out[k] is Err implies err_from(
        root,
        #[trigger] r2.out_srcs[k],
        r2.out[k],
    ) by {
        if k == n {
            assert(err_from(root, r.srcs[0], r.walk.pending[0]));
        }
    }
    assert forall|i: int, j: int|
        0 <= i < r2.srcs.len() && 0 <= j < r2.out_srcs.len() && r2.walk.pending[i] is Err
            && r2.out[j] is Err implies #[trigger] r2.srcs[i] != #[trigger] r2.out_srcs[j] by {
        if j == n {
            assert(r.srcs[i + 1] != r.srcs[0]);
        } else {
            assert(r.srcs[i + 1] != r.out_srcs[j]);
        }
    }
    assert forall|i: int, j: int|
        0 <= i < r2.out_srcs.len() && 0 <= j < r2.out_srcs.len() && i != j && r2.out[i] is Err
            && r2.out[j] is Err implies #[trigger] r2.out_srcs[i] != #[trigger] r2.out_srcs[j] by {
        if i == n {
            assert(r.srcs[0] != r.out_srcs[j]);
        } else if j == n {
            assert(r.srcs[0] != r.out_srcs[i]);
        }
    }
    assert forall|i: int, j: int|
        0 <= i < r2.srcs.len() && 0 <= j < r2.srcs.len() && i != j && r2.walk.pending[i] is Err
            && r2.walk.pending[j] is Err implies #[trigger] r2.srcs[i] != #[trigger] r2.srcs[j] by {
        assert(r.srcs[i + 1] != r.srcs[j + 1]);
    }
    assert forall|i: int, j: int|
        0 <= i < r2.addrs.len() && r2.addrs[i] is Some && 0 <= j < r2.out_srcs.len() && r2.out[j] is Err
            implies !is_prefix((#[trigger] r2.addrs[i])->Some_0, #[trigger] r2.out_srcs[j]) by {
        if j == n {
            assert(!is_prefix(r.addrs[i + 1]->Some_0, r.srcs[0]));
        } else {
            assert(!is_prefix(r.addrs[i + 1]->Some_0, r.out_srcs[j]));
        }
    }
    assert forall|i: int, j: int|
        0 <= i < r2.addrs.len() && r2.addrs[i] is Some && 0 <= j < r2.srcs.len() && r2.walk.pending[j] is Err
            implies !is_prefix((#[trigger] r2.addrs[i])->Some_0, #[trigger] r2.srcs[j]) by {
        assert(!is_prefix(r.addrs[i + 1]->Some_0, r.srcs[j + 1]));
    }
}

/// The visited entry at `a` is expanded: what its node gives is queued, with
/// sources under `a` or `a` itself.
proof fn lemma_srcs_expand(rp: WalkRun, root: FsNode, keep: spec_fn(DirEntry) -> bool, a: Seq<int>)
    requires
        run_inv(rp, root, keep),
        inv_srcs(rp, root),
        is_entry(root, a),
        rp.walk.visiting == a.len(),
        forall|i: int| 0 <= i < rp.addrs.len() && rp.addrs[i] is Some ==> !is_prefix(
            (#[trigger] rp.addrs[i])->Some_0,
            a,
        ),
        forall|i: int| 0 <= i < rp.addrs.len() && rp.addrs[i] is Some ==> !is_prefix(
            a,
            (#[trigger] rp.addrs[i])->Some_0,
        ),
        forall|j: int| 0 <= j < rp.srcs.len() && rp.walk.pending[j] is Err ==> !is_prefix(
            a,
            #[trigger] rp.srcs[j],
        ),
        forall|j: int| 0 <= j < rp.out_srcs.len() && rp.out[j] is Err ==> !is_prefix(
            a,
            #[trigger] rp.out_srcs[j],
        ),
    ensures
        inv_srcs(visit_expand(rp, root, a), root),
        visit_expand(rp, root, a).out == rp.out,
        visit_expand(rp, root, a).out_srcs == rp.out_srcs,
{
    let rx = visit_expand(rp, root, a);
    let n = node_at(root, a)->Some_0;
    let m = rp.srcs.len() as int;
    lemma_prefix_refl(a);
    assert forall|i: int| 0 <= i < rp.addrs.len() && rp.addrs[i] is Some implies
        rp.walk.pending[i] is Ok by {
        assert(linked(root, rp.walk.pending[i], rp.addrs[i]));
    }
    assert forall|i: int| 0 <= i < rp.addrs.len() && rp.walk.pending[i] is Err implies
        rp.addrs[i] is None by {
        assert(linked(root, rp.walk.pending[i], rp.addrs[i]));
    }
    match n {
        FsNode::Node { path, kind, listing: Ok(kids) } => {
            lemma_push_kids(rp.walk, rp.addrs, kids, a, 0);
            let d = (rp.walk.visiting + 1) as usize;
            assert forall|k: int| 0 <= k < kids.len() implies #[trigger] rx.srcs[m + k] == a.push(k)
                && rx.walk.pending[m + k] == kid_item(kids[k], d)
                && rx.addrs[m + k] == kid_addr(kids[k], a, k)
                && node_at(root, a.push(k)) == Some(kids[k]) by {
                assert(rx.walk.pending[m + k] == kid_item(kids[0 + k], d));
                lemma_node_at_push(root, a, k);
            }
            assert forall|k: int| 0 <= k < m implies #[trigger] rx.srcs[k] == rp.srcs[k]
                && rx.walk.pending[k] == rp.walk.pending[k] && rx.addrs[k] == rp.addrs[k] by {}
            assert forall|k: int| 0 <= k < rx.srcs.len() && rx.walk.pending[k] is Err implies err_from(
                root,
                #[trigger] rx.srcs[k],
                rx.walk.pending[k],
            ) by {
                if k >= m {
                    let c = k - m;
                    assert(rx.srcs[m + c] == a.push(c));
                }
            }
            assert forall|i: int, j: int|
                0 <= i < rx.srcs.len() && 0 <= j < rx.srcs.len() && i != j && rx.walk.pending[i] is Err
                    && rx.walk.pending[j] is Err implies #[trigger] rx.srcs[i] != #[trigger] rx.srcs[j] by {
                if i >= m && j >= m {
                    assert(rx.srcs[m + (i - m)] == a.push(i - m));
                    assert(rx.srcs[m + (j - m)] == a.push(j - m));
                    assert(a.push(i - m)[a.len() as int] != a.push(j - m)[a.len() as int]);
                } else if i >= m {
                    assert(rx.srcs[m + (i - m)] == a.push(i - m));
                    lemma_prefix_push(a, a, i - m);
                    if rp.srcs[j] == a.push(i - m) {
                        assert(is_prefix(a, rp.srcs[j]));
                    }
                } else if j >= m {
                    assert(rx.srcs[m + (j - m)] == a.push(j - m));
                    lemma_prefix_push(a, a, j - m);
                    if rp.srcs[i] == a.push(j - m) {
                        assert(is_prefix(a, rp.srcs[i]));
                    }
                }
            }
            assert forall|i: int, j: int|
                0 <= i < rx.srcs.len() && 0 <= j < rx.out_srcs.len() && rx.walk.pending[i] is Err
                    && rx.out[j] is Err implies #[trigger] rx.srcs[i] != #[trigger] rx.out_srcs[j] by {
                if i >= m {
                    assert(rx.srcs[m + (i - m)] == a.push(i - m));
                    lemma_prefix_push(a, a, i - m);
                    if rp.out_srcs[j] == a.push(i - m) {
                        assert(is_prefix(a, rp.out_srcs[j]));
                    }
                }
            }
            assert forall|i: int, j: int|
                0 <= i < rx.addrs.len() && rx.addrs[i] is Some && 0 <= j < rx.srcs.len()
                    && rx.walk.pending[j] is Err implies !is_prefix(
                (#[trigger] rx.addrs[i])->Some_0,
                #[trigger] rx.srcs[j],
            ) by {
                let x = rx.addrs[i]->Some_0;
                if i >= m {
                    let c = i - m;
                    assert(rx.addrs[m + c] == kid_addr(kids[c], a, c));
                    assert(x == a.push(c));
                    if j >= m {
                        assert(rx.srcs[m + (j - m)] == a.push(j - m));
                        if is_prefix(x, a.push(j - m)) {
                            assert(a.push(j - m).subrange(0, x.len() as int) =~= a.push(j - m));
                            assert(x[a.len() as int] == a.push(j - m)[a.len() as int]);
                            assert(rx.walk.pending[m + c] == kid_item(kids[c], d));
                            assert(rx.walk.pending[m + (j - m)] == kid_item(kids[j - m], d));
                        }
                    } else {
                        lemma_prefix_push(a, a, c);
                        if is_prefix(x, rp.srcs[j]) {
                            lemma_prefix_trans(a, x, rp.srcs[j]);
                        }
                    }
                } else if j >= m {
                    assert(rx.srcs[m + (j - m)] == a.push(j - m));
                    lemma_prefix_push(x, a, j - m);
                    if x == a.push(j - m) {
                        lemma_prefix_push(a, a, j - m);
                        assert(is_prefix(a, x));
                    }
                }
            }
            assert forall|i: int, j: int|
                0 <= i < rx.addrs.len() && rx.addrs[i] is Some && 0 <= j < rx.out_srcs.len()
                    && rx.out[j] is Err implies !is_prefix(
                (#[trigger] rx.addrs[i])->Some_0,
                #[trigger] rx.out_srcs[j],
            ) by {
                if i >= m {
                    let c = i - m;
                    assert(rx.addrs[m + c] == kid_addr(kids[c], a, c));
                    lemma_prefix_push(a, a, c);
                    if is_prefix(rx.addrs[i]->Some_0, rp.out_srcs[j]) {
                        lemma_prefix_trans(a, rx.addrs[i]->Some_0, rp.out_srcs[j]);
                    }
                }
            }
        },
        FsNode::Node { path, kind, listing: Err(err) } => {
            assert(rx.walk.pending == rp.walk.pending.push(Err(error_at(path, err))));
            assert(rx.addrs == rp.addrs.push(None));
            assert(rx.srcs == rp.srcs.push(a));
            assert forall|i: int, j: int|
                0 <= i < rx.srcs.len() && 0 <= j < rx.srcs.len() && i != j && rx.walk.pending[i] is Err
                    && rx.walk.pending[j] is Err implies #[trigger] rx.srcs[i] != #[trigger] rx.srcs[j] by {
                if i == m {
                    assert(!is_prefix(a, rp.srcs[j]));
                } else if j == m {
                    assert(!is_prefix(a, rp.srcs[i]));
                }
            }
            assert forall|i: int, j: int|
                0 <= i < rx.srcs.len() && 0 <= j < rx.out_srcs.len() && rx.walk.pending[i] is Err
                    && rx.out[j] is Err implies #[trigger] rx.srcs[i] != #[trigger] rx.out_srcs[j] by {
                if i == m {
                    assert(!is_prefix(a, rp.out_srcs[j]));
                }
            }
            assert forall|i: int, j: int|
                0 <= i < rx.addrs.len() && rx.addrs[i] is Some && 0 <= j < rx.srcs.len()
                    && rx.walk.pending[j] is Err implies !is_prefix(
                (#[trigger] rx.addrs[i])->Some_0,
                #[trigger] rx.srcs[j],
            ) by {
                assert(rx.addrs[i] == rp.addrs[i]);
            }
            assert forall|k: int| 0 <= k < rx.srcs.len() && rx.walk.pending[k] is Err implies err_from(
                root,
                #[trigger] rx.srcs[k],
                rx.walk.pending[k],
            ) by {
                if k < m {
                    assert(rx.srcs[k] == rp.srcs[k]);
                }
            }
        },
        FsNode::Unreadable { .. } => {},
    }
}

/// A yielded entry joins the output with its own address as source.
proof fn lemma_srcs_settle(rx: WalkRun, root: FsNode, a: Seq<int>, e: DirEntry)
    requires
        inv_srcs(rx, root),
    ensures
        inv_srcs(visit_settle(rx, a, e), root),
        visit_settle(rx, a, e).walk.pending == rx.walk.pending,
        visit_settle(rx, a, e).srcs == rx.srcs,
        visit_settle(rx, a, e).addrs == rx.addrs,
        forall|k: int| 0 <= k < rx.out.len() ==> #[trigger] visit_settle(rx, a, e).out[k] == rx.out[k]
            && visit_settle(rx, a, e).out_srcs[k] == rx.out_srcs[k],
        forall|k: int| rx.out.len() <= k < visit_settle(rx, a, e).out.len() ==> #[trigger] visit_settle(
            rx,
            a,
            e,
        ).out[k] is Ok,
{
    let r2 = visit_settle(rx, a, e);
    let (w3, y) = after_settle(rx.walk, e);
    if let Some(e2) = y {
        let n = rx.out.len() as int;
        assert forall|k: int| 0 <= k < r2.out_srcs.len() && r2.out[k] is Err implies err_from(
            root,
            #[trigger] r2.out_srcs[k],
            r2.out[k],
        ) by {
            assert(k < n);
        }
        assert forall|i: int, j: int|
            0 <= i < r2.out_srcs.len() && 0 <= j < r2.out_srcs.len() && i != j && r2.out[i] is Err
                && r2.out[j] is Err implies #[trigger] r2.out_srcs[i] != #[trigger] r2.out_srcs[j] by {
            assert(i < n && j < n);
        }
        assert forall|i: int, j: int|
            0 <= i < r2.srcs.len() && 0 <= j < r2.out_srcs.len() && r2.walk.pending[i] is Err
                && r2.out[j] is Err implies #[trigger] r2.srcs[i] != #[trigger] r2.out_srcs[j] by {
            assert(j < n);
        }
        assert forall|i: int, j: int|
            0 <= i < r2.addrs.len() && r2.addrs[i] is Some && 0 <= j < r2.out_srcs.len() && r2.out[j] is Err
                implies !is_prefix((#[trigger] r2.addrs[i])->Some_0, #[trigger] r2.out_srcs[j]) by {
            assert(j < n);
        }
    }
}

proof fn lemma_srcs_visit(r: WalkRun, root: FsNode, keep: spec_fn(DirEntry) -> bool)
    requires
        run_inv(r, root, keep),
        inv_srcs(r, root),
        !r.done,
        r.walk.pending.len() > 0,
        r.walk.pending[0] is Ok,
    ensures
        inv_srcs(run_step(r, root, keep), root),
{
    lemma_visit_pop(r, root, keep);
    let rp = visit_pop(r);
    let a = r.addrs[0]->Some_0;
    let e = entry_at(root, a);
    lemma_entry_at(root, a);
    assert(linked(root, r.walk.pending[0], r.addrs[0]));
    assert forall|k: int| 0 <= k < rp.srcs.len() implies #[trigger] rp.srcs[k] == r.srcs[k + 1]
        && rp.walk.pending[k] == r.walk.pending[k + 1] && rp.addrs[k] == r.addrs[k + 1] by {}
    assert(inv_srcs(rp, root)) by {
        assert forall|i: int, j: int|
            0 <= i < rp.srcs.len() && 0 <= j < rp.srcs.len() && i != j && rp.walk.pending[i] is Err
                && rp.walk.pending[j] is Err implies #[trigger] rp.srcs[i] != #[trigger] rp.srcs[j] by {
            assert(r.srcs[i + 1] != r.srcs[j + 1]);
        }
        assert forall|i: int, j: int|
            0 <= i < rp.srcs.len() && 0 <= j < rp.out_srcs.len() && rp.walk.pending[i] is Err
                && rp.out[j] is Err implies #[trigger] rp.srcs[i] != #[trigger] rp.out_srcs[j] by {
            assert(r.srcs[i + 1] != r.out_srcs[j]);
        }
        assert forall|i: int, j: int|
            0 <= i < rp.addrs.len() && rp.addrs[i] is Some && 0 <= j < rp.srcs.len()
                && rp.walk.pending[j] is Err implies !is_prefix(
            (#[trigger] rp.addrs[i])->Some_0,
            #[trigger] rp.srcs[j],
        ) by {
            assert(!is_prefix(r.addrs[i + 1]->Some_0, r.srcs[j + 1]));
        }
        assert forall|i: int, j: int|
            0 <= i < rp.addrs.len() && rp.addrs[i] is Some && 0 <= j < rp.out_srcs.len() && rp.out[j] is Err
                implies !is_prefix((#[trigger] rp.addrs[i])->Some_0, #[trigger] rp.out_srcs[j]) by {
            assert(!is_prefix(r.addrs[i + 1]->Some_0, r.out_srcs[j]));
        }
    }
    assert forall|j: int| 0 <= j < rp.srcs.len() && rp.walk.pending[j] is Err implies !is_prefix(
        a,
        #[trigger] rp.srcs[j],
    ) by {
        assert(!is_prefix(r.addrs[0]->Some_0, r.srcs[j + 1]));
    }
    assert forall|j: int| 0 <= j < rp.out_srcs.len() && rp.out[j] is Err implies !is_prefix(
        a,
        #[trigger] rp.out_srcs[j],
    ) by {
        assert(!is_prefix(r.addrs[0]->Some_0, r.out_srcs[j]));
    }
    if keep(e) {
        let rx = if expands(rp.walk, e) {
            lemma_srcs_expand(rp, root, keep, a);
            visit_expand(rp, root, a)
        } else {
            rp
        };
        lemma_srcs_settle(rx, root, a, e);
        assert(run_step(r, root, keep) == visit_settle(rx, a, e));
    } else {
        assert(run_step(r, root, keep) == rp);
    }
}

proof fn lemma_srcs_step(r: WalkRun, root: FsNode, keep: spec_fn(DirEntry) -> bool)
    requires
        run_inv(r, root, keep),
        inv_srcs(r, root),
    ensures
        inv_srcs(run_step(r, root, keep), root),
{
    let r2 = run_step(r, root, keep);
    if r.done {
    } else if r.walk.pending.len() == 0 {
        if r.walk.held.len() > 0 {
            let n = r.out.len() as int;
            assert(r2.out == r.out.push(Ok(r.walk.held.last())));
            assert(r2.out_srcs == r.out_srcs.push(r.held_addrs.last()));
            assert(r2.srcs == r.srcs && r2.addrs == r.addrs && r2.walk.pending == r.walk.pending);
            assert forall|k: int| 0 <= k < r2.out_srcs.len() && r2.out[k] is Err implies err_from(
                root,
                #[trigger] r2.out_srcs[k],
                r2.out[k],
            ) by {
                assert(k < n);
            }
            assert forall|i: int, j: int|
                0 <= i < r2.out_srcs.len() && 0 <= j < r2.out_srcs.len() && i != j && r2.out[i] is Err
                    && r2.out[j] is Err implies #[trigger] r2.out_srcs[i] != #[trigger] r2.out_srcs[j] by {
                assert(i < n && j < n);
            }
            assert forall|i: int, j: int|
                0 <= i < r2.srcs.len() && 0 <= j < r2.out_srcs.len() && r2.walk.pending[i] is Err
                    && r2.out[j] is Err implies #[trigger] r2.srcs[i] != #[trigger] r2.out_srcs[j] by {
                assert(j < n);
            }
            assert forall|i: int, j: int|
                0 <= i < r2.addrs.len() && r2.addrs[i] is Some && 0 <= j < r2.out_srcs.len()
                    && r2.out[j] is Err implies !is_prefix(
                (#[trigger] r2.addrs[i])->Some_0,
                #[trigger] r2.out_srcs[j],
            ) by {
                assert(j < n);
            }
        } else {
            assert(r2 == WalkRun { done: true, ..r });
        }
    } else if r.walk.pending[0] is Err {
        lemma_srcs_error(r, root, keep);
    } else {
        lemma_srcs_visit(r, root, keep);
    }
}

proof fn lemma_srcs_run(root: FsNode, options: WalkOptions, keep: spec_fn(DirEntry) -> bool, k: nat)
    ensures
        inv_srcs(run(root, options, keep, k), root),
    decreases k,
{
    if k == 0 {
        lemma_srcs_start(root, options);
    } else {
        lemma_srcs_run(root, options, keep, (k - 1) as nat);
        lemma_run_inv(root, options, keep, (k - 1) as nat);
        lemma_srcs_step(run(root, options, keep, (k - 1) as nat), root, keep);
    }
}

/// The walk owes the error `err` that reading the listing of the directory at
/// `d`, with path `path`, gave: the directory is reached, accepted, and above
/// `max_depth`.
pub open spec fn read_error_owed(
    root: FsNode,
    keep: spec_fn(DirEntry) -> bool,
    options: WalkOptions,
    d: Seq<int>,
    path: PathBuf,
    err: io::Error,
) -> bool {
    &&& reached(root, keep, options, d)
    &&& keep(entry_at(root, d))
    &&& d.len() < options.max_depth
    &&& node_at(root, d) == Some(FsNode::Node { path, kind: FileKind::Dir, listing: Err(err) })
}

/// The error reading the listing of the directory at `d` is still to come:
/// something pending lies over the directory or is it, or an error from `d`
/// is pending or was yielded.
pub open spec fn error_covered(r: WalkRun, d: Seq<int>) -> bool {
    ||| exists|i: int| 0 <= i < r.addrs.len() && r.addrs[i] is Some && is_prefix(
        (#[trigger] r.addrs[i])->Some_0,
        d,
    )
    ||| exists|i: int| 0 <= i < r.srcs.len() && r.walk.pending[i] is Err && #[trigger] r.srcs[i] == d
    ||| exists|i: int| 0 <= i < r.out_srcs.len() && r.out[i] is Err && #[trigger] r.out_srcs[i] == d
}

pub open spec fn inv_errors(r: WalkRun, root: FsNode, keep: spec_fn(DirEntry) -> bool) -> bool {
    forall|d: Seq<int>, path: PathBuf, err: io::Error|
        #[trigger] read_error_owed(root, keep, r.walk.options, d, path, err) ==> error_covered(r, d)
}

proof fn lemma_errors_start(root: FsNode, options: WalkOptions, keep: spec_fn(DirEntry) -> bool)
    ensures
        inv_errors(run_start(root, options), root, keep),
{
    let r = run_start(root, options);
    assert forall|d: Seq<int>, path: PathBuf, err: io::Error|
        #[trigger] read_error_owed(root, keep, r.walk.options, d, path, err) implies error_covered(r, d) by {
        let e = Seq::<int>::empty();
        if let FsNode::Node { .. } = root {
            assert(r.addrs[0] == Some(e));
            assert(d.subrange(0, 0) =~= e);
            assert(is_prefix(e, d));
        } else {
            if d.len() > 0 {
                assert(node_at(root, d) is None);
            }
        }
    }
}

proof fn lemma_errors_step(r: WalkRun, root: FsNode, keep: spec_fn(DirEntry) -> bool)
    requires
        run_inv(r, root, keep),
        inv_srcs(r, root),
        inv_errors(r, root, keep),
    ensures
        inv_errors(run_step(r, root, keep), root, keep),
{
    let r2 = run_step(r, root, keep);
    lemma_run_step_options(r, root, keep);
    let opts = r.walk.options;
    if r.done {
    } else if r.walk.pending.len() == 0 {
        if r.walk.held.len() > 0 {
            assert(r2.out == r.out.push(Ok(r.walk.held.last())));
            assert(r2.out_srcs == r.out_srcs.push(r.held_addrs.last()));
            assert(r.addrs.len() == 0 && r.srcs.len() == 0);
            assert forall|d: Seq<int>, path: PathBuf, err: io::Error|
                #[trigger] read_error_owed(root, keep, opts, d, path, err) implies error_covered(r2, d) by {
                assert(error_covered(r, d));
                let i = choose|i: int| 0 <= i < r.out_srcs.len() && r.out[i] is Err && #[trigger] r.out_srcs[i] == d;
                assert(r2.out[i] == r.out[i] && r2.out_srcs[i] == d);
            }
        } else {
            assert(r2 == WalkRun { done: true, ..r });
            assert forall|d: Seq<int>, path: PathBuf, err: io::Error|
                #[trigger] read_error_owed(root, keep, opts, d, path, err) implies error_covered(r2, d) by {
                assert(error_covered(r, d));
                let i = choose|i: int| 0 <= i < r.out_srcs.len() && r.out[i] is Err && #[trigger] r.out_srcs[i] == d;
                assert(r2.out[i] == r.out[i] && r2.out_srcs[i] == d);
            }
        }
    } else if r.walk.pending[0] is Err {
        assert(r2.addrs == r.addrs.drop_first());
        assert(r2.srcs == r.srcs.drop_first());
        assert(r2.walk.pending == r.walk.pending.drop_first());
        assert(r2.out == r.out.push(r.walk.pending[0]));
        assert(r2.out_srcs == r.out_srcs.push(r.srcs[0]));
        assert forall|d: Seq<int>, path: PathBuf, err: io::Error|
            #[trigger] read_error_owed(root, keep, opts, d, path, err) implies error_covered(r2, d) by {
            assert(error_covered(r, d));
            if exists|i: int| 0 <= i < r.addrs.len() && r.addrs[i] is Some && is_prefix(
                (#[trigger] r.addrs[i])->Some_0,
                d,
            ) {
                let i = choose|i: int| 0 <= i < r.addrs.len() && r.addrs[i] is Some && is_prefix(
                    (#[trigger] r.addrs[i])->Some_0,
                    d,
                );
                assert(linked(root, r.walk.pending[0], r.addrs[0]));
                assert(r2.addrs[i - 1] == r.addrs[i]);
            } else if exists|i: int| 0 <= i < r.srcs.len() && r.walk.pending[i] is Err && #[trigger] r.srcs[i] == d {
                let i = choose|i: int| 0 <= i < r.srcs.len() && r.walk.pending[i] is Err && #[trigger] r.srcs[i] == d;
                if i == 0 {
                    assert(r2.out_srcs[r.out.len() as int] == d);
                    assert(r2.out[r.out.len() as int] is Err);
                } else {
                    assert(r2.srcs[i - 1] == d);
                    assert(r2.walk.pending[i - 1] is Err);
                }
            } else {
                let i = choose|i: int| 0 <= i < r.out_srcs.len() && r.out[i] is Err && #[trigger] r.out_srcs[i] == d;
                assert(r2.out[i] == r.out[i] && r2.out_srcs[i] == d);
            }
        }
    } else {
        lemma_errors_visit(r, root, keep);
    }
}

proof fn lemma_errors_visit(r: WalkRun, root: FsNode, keep: spec_fn(DirEntry) -> bool)
    requires
        run_inv(r, root, keep),
        inv_srcs(r, root),
        inv_errors(r, root, keep),
        !r.done,
        r.walk.pending.len() > 0,
        r.walk.pending[0] is Ok,
    ensures
        inv_errors(run_step(r, root, keep), root, keep),
{
    let r2 = run_step(r, root, keep);
    lemma_run_step_options(r, root, keep);
    let opts = r.walk.options;
    lemma_visit_pop(r, root, keep);
    let rp = visit_pop(r);
    let p = r.addrs[0]->Some_0;
    let e = entry_at(root, p);
    lemma_entry_at(root, p);
    let ex = expands(rp.walk, e);
    let rx = if keep(e) && ex {
        lemma_visit_expand(rp, root, keep, p);
        visit_expand(rp, root, p)
    } else {
        rp
    };
    if keep(e) {
        lemma_visit_settle(rx, root, keep, p);
        assert(r2 == visit_settle(rx, p, e));
    } else {
        assert(r2 == rp);
    }
    assert(r2.addrs == rx.addrs);
    assert(r2.srcs == rx.srcs);
    assert(r2.walk.pending == rx.walk.pending);
    let m = rp.srcs.len() as int;
    assert forall|i: int| 0 <= i < m implies #[trigger] rx.srcs[i] == rp.srcs[i] && rx.walk.pending[i]
        == rp.walk.pending[i] by {
        if keep(e) && ex {
            let n = node_at(root, p)->Some_0;
            match n {
                FsNode::Node { listing: Ok(kids), .. } => {
                    lemma_push_kids(rp.walk, rp.addrs, kids, p, 0);
                },
                _ => {},
            }
        }
    }
    assert forall|i: int| 0 <= i < r.out.len() implies #[trigger] r2.out[i] == r.out[i] && r2.out_srcs[i]
        == r.out_srcs[i] by {
        if keep(e) {
            lemma_settle_wf(rx.walk, e);
        }
    }
    assert forall|d: Seq<int>, path: PathBuf, err: io::Error|
        #[trigger] read_error_owed(root, keep, opts, d, path, err) implies error_covered(r2, d) by {
        assert(error_covered(r, d));
        if exists|i: int| 0 <= i < r.addrs.len() && r.addrs[i] is Some && is_prefix(
            (#[trigger] r.addrs[i])->Some_0,
            d,
        ) {
            let i = choose|i: int| 0 <= i < r.addrs.len() && r.addrs[i] is Some && is_prefix(
                (#[trigger] r.addrs[i])->Some_0,
                d,
            );
            if i > 0 {
                assert(rp.addrs[i - 1] == r.addrs[i]);
                assert(r2.addrs[i - 1] == r.addrs[i]);
            } else if p.len() == d.len() {
                // `p` is the directory: reading its listing queued the error
                assert(d.subrange(0, p.len() as int) =~= d);
                assert(p == d);
                assert(keep(e) && ex);
                assert(rx.srcs == rp.srcs.push(p));
                assert(rx.walk.pending == rp.walk.pending.push(Err(error_at(path, err))));
                assert(r2.srcs[m] == d);
                assert(r2.walk.pending[m] is Err);
            } else {
                if !keep(e) {
                    assert(d.subrange(0, p.len() as int) == p);
                    assert(keep(entry_at(root, d.subrange(0, p.len() as int))));
                }
                lemma_cover_child(r, root, keep, d);
                let j = choose|j: int| 0 <= j < rx.addrs.len() && rx.addrs[j] is Some
                    && is_prefix((#[trigger] rx.addrs[j])->Some_0, d);
                assert(r2.addrs[j] == rx.addrs[j]);
            }
        } else if exists|i: int| 0 <= i < r.srcs.len() && r.walk.pending[i] is Err && #[trigger] r.srcs[i] == d {
            let i = choose|i: int| 0 <= i < r.srcs.len() && r.walk.pending[i] is Err && #[trigger] r.srcs[i] == d;
            assert(i > 0);
            assert(rp.srcs[i - 1] == d && rp.walk.pending[i - 1] is Err);
            assert(r2.srcs[i - 1] == d && r2.walk.pending[i - 1] is Err);
        } else {
            let i = choose|i: int| 0 <= i < r.out_srcs.len() && r.out[i] is Err && #[trigger] r.out_srcs[i] == d;
            assert(r2.out[i] == r.out[i] && r2.out_srcs[i] == d);
        }
    }
}

proof fn lemma_errors_run(root: FsNode, options: WalkOptions, keep: spec_fn(DirEntry) -> bool, k: nat)
    ensures
        inv_errors(run(root, options, keep, k), root, keep),
    decreases k,
{
    lemma_run_inv(root, options, keep, k);
    if k == 0 {
        lemma_errors_start(root, options, keep);
    } else {
        lemma_errors_run(root, options, keep, (k - 1) as nat);
        lemma_run_inv(root, options, keep, (k - 1) as nat);
        lemma_srcs_run(root, options, keep, (k - 1) as nat);
        lemma_errors_step(run(root, options, keep, (k - 1) as nat), root, keep);
    }
}

/// A walk that is done has yielded, for each directory it reached, accepted
/// and was to read, whose listing could not be read, exactly one error from
/// that directory: that error at that directory's path, whatever `min_depth`
/// is; the walk went on after it.  After any number of rounds, every yielded
/// error is the one a node of the tree gave (so a tree whose metadata and
/// listings all read yields no error), and no two yielded errors come from
/// the same node.
pub proof fn law_walk_reports_read_errors(
    root: FsNode,
    options: WalkOptions,
    keep: spec_fn(DirEntry) -> bool,
    k: nat,
)
    ensures
        ({
            let r = run(root, options, keep, k);
            &&& r.out_srcs.len() == r.out.len()
            &&& forall|i: int|
                0 <= i < r.out.len() && r.out[i] is Err ==> err_from(root, #[trigger] r.out_srcs[i], r.out[i])
            &&& forall|i: int, j: int|
                0 <= i < r.out.len() && 0 <= j < r.out.len() && i != j && r.out[i] is Err && r.out[j] is Err
                    ==> #[trigger] r.out_srcs[i] != #[trigger] r.out_srcs[j]
            &&& r.done ==> forall|d: Seq<int>, path: PathBuf, err: io::Error|
                #[trigger] read_error_owed(root, keep, options, d, path, err) ==> exists|i: int|
                    0 <= i < r.out.len() && #[trigger] r.out_srcs[i] == d && r.out[i] == Err::<
                        DirEntry,
                        WalkError,
                    >(error_at(path, err)) && error_at(path, err).failed_path() == Some(path) && error_at(
                        path,
                        err,
                    ).cause() == err
        }),
{
    lemma_errors_run(root, options, keep, k);
    lemma_srcs_run(root, options, keep, k);
    lemma_cover_run(root, options, keep, k);
    lemma_run_inv(root, options, keep, k);
    let r = run(root, options, keep, k);
    if r.done {
        assert forall|d: Seq<int>, path: PathBuf, err: io::Error|
            #[trigger] read_error_owed(root, keep, options, d, path, err) implies exists|i: int|
            0 <= i < r.out.len() && #[trigger] r.out_srcs[i] == d && r.out[i] == Err::<DirEntry, WalkError>(
                error_at(path, err),
            ) && error_at(path, err).failed_path() == Some(path) && error_at(path, err).cause() == err by {
            assert(error_covered(r, d));
            let i = choose|i: int| 0 <= i < r.out_srcs.len() && r.out[i] is Err && #[trigger] r.out_srcs[i] == d;
            assert(err_from(root, r.out_srcs[i], r.out[i]));
        }
    }
}

/// Work left in the subtree of `n`: what visiting it, reading its listing and
/// walking what the listing holds can still cost.
pub open spec fn node_weight(n: FsNode) -> nat
    decreases n,
{
    match n {
        FsNode::Node { listing: Ok(kids), .. } => 3 + forest_weight(kids),
        FsNode::Node { listing: Err(_), .. } => 3,
        FsNode::Unreadable { .. } => 1,
    }
}

/// Work left in a listing.
pub open spec fn forest_weight(kids: Seq<FsNode>) -> nat
    decreases kids,
{
    if kids.len() == 0 {
        0
    } else {
        forest_weight(kids.drop_last()) + node_weight(kids.last())
    }
}

/// Work left for one pending item: its subtree for an entry, one for an error.
pub open spec fn item_weight(root: FsNode, addr: Option<Seq<int>>) -> nat {
    match addr {
        Some(a) => match node_at(root, a) {
            Some(n) => node_weight(n),
            None => 0,
        },
        None => 1,
    }
}

/// Work left for the pending items.
pub open spec fn pending_weight(root: FsNode, addrs: Seq<Option<Seq<int>>>) -> nat
    decreases addrs.len(),
{
    if addrs.len() == 0 {
        0
    } else {
        pending_weight(root, addrs.drop_last()) + item_weight(root, addrs.last())
    }
}

/// Work left in a walk: the pending items, the held-back directories, and
/// the final round that says it is done.
pub open spec fn run_weight(r: WalkRun, root: FsNode) -> nat {
    pending_weight(root, r.addrs) + r.held_addrs.len() + if r.done {
        0nat
    } else {
        1nat
    }
}

proof fn lemma_pending_weight_concat(root: FsNode, s1: Seq<Option<Seq<int>>>, s2: Seq<Option<Seq<int>>>)
    ensures
        pending_weight(root, s1 + s2) == pending_weight(root, s1) + pending_weight(root, s2),
    decreases s2.len(),
{
    if s2.len() == 0 {
        assert(s1 + s2 =~= s1);
    } else {
        assert((s1 + s2).drop_last() =~= s1 + s2.drop_last());
        assert((s1 + s2).last() == s2.last());
        lemma_pending_weight_concat(root, s1, s2.drop_last());
    }
}

proof fn lemma_pending_weight_front(root: FsNode, s: Seq<Option<Seq<int>>>)
    requires
        s.len() > 0,
    ensures
        pending_weight(root, s) == item_weight(root, s[0]) + pending_weight(root, s.drop_first()),
{
    let h = seq![s[0]];
    assert(h + s.drop_first() =~= s);
    lemma_pending_weight_concat(root, h, s.drop_first());
    assert(h.drop_last() =~= Seq::<Option<Seq<int>>>::empty());
    assert(pending_weight(root, h.drop_last()) == 0);
    assert(pending_weight(root, h) == item_weight(root, s[0]));
}

/// The children of the node at `a` weigh what its listing weighs.
proof fn lemma_kids_weight(root: FsNode, kids: Seq<FsNode>, a: Seq<int>, m: int)
    requires
        0 <= m <= kids.len(),
        forall|k: int| 0 <= k < kids.len() ==> node_at(root, #[trigger] a.push(k)) == Some(kids[k]),
    ensures
        pending_weight(root, Seq::new(m as nat, |k: int| kid_addr(kids[k], a, k))) == forest_weight(
            kids.subrange(0, m),
        ),
    decreases m,
{
    let s = Seq::new(m as nat, |k: int| kid_addr(kids[k], a, k));
    if m == 0 {
        assert(s.len() == 0);
        assert(kids.subrange(0, 0).len() == 0);
    } else {
        lemma_kids_weight(root, kids, a, m - 1);
        assert(s.drop_last() =~= Seq::new((m - 1) as nat, |k: int| kid_addr(kids[k], a, k)));
        assert(kids.subrange(0, m).drop_last() =~= kids.subrange(0, m - 1));
        assert(kids.subrange(0, m).last() == kids[m - 1]);
        assert(node_at(root, a.push(m - 1)) == Some(kids[m - 1]));
        assert(s.last() == kid_addr(kids[m - 1], a, m - 1));
        assert(item_weight(root, s.last()) == node_weight(kids[m - 1]));
    }
}

/// Each round of a walk that is not done leaves less work.
proof fn lemma_weight_step(r: WalkRun, root: FsNode, keep: spec_fn(DirEntry) -> bool)
    requires
        run_inv(r, root, keep),
        !r.done,
    ensures
        run_weight(run_step(r, root, keep), root) < run_weight(r, root),
{
    let r2 = run_step(r, root, keep);
    if r.walk.pending.len() == 0 {
        if r.walk.held.len() > 0 {
            assert(r2.addrs == r.addrs);
            assert(r2.held_addrs == r.held_addrs.drop_last());
            assert(r.held_addrs.len() > 0);
            assert(run_weight(r2, root) < run_weight(r, root));
        } else {
            assert(r2 == WalkRun { done: true, ..r });
            assert(run_weight(r2, root) < run_weight(r, root));
        }
    } else if r.walk.pending[0] is Err {
        assert(linked(root, r.walk.pending[0], r.addrs[0]));
        assert(r2.addrs == r.addrs.drop_first());
        lemma_pending_weight_front(root, r.addrs);
        assert(r2.held_addrs == r.held_addrs);
        assert(run_weight(r2, root) < run_weight(r, root));
    } else {
        lemma_visit_pop(r, root, keep);
        let rp = visit_pop(r);
        let a = r.addrs[0]->Some_0;
        let e = entry_at(root, a);
        lemma_entry_at(root, a);
        lemma_pending_weight_front(root, r.addrs);
        let n = node_at(root, a)->Some_0;
        assert(item_weight(root, r.addrs[0]) == node_weight(n));
        assert(node_weight(n) >= 3);
        if keep(e) {
            let ex = expands(rp.walk, e);
            let rx = if ex {
                visit_expand(rp, root, a)
            } else {
                rp
            };
            if ex {
                match n {
                    FsNode::Node { listing: Ok(kids), .. } => {
                        lemma_push_kids(rp.walk, rp.addrs, kids, a, 0);
                        let t = Seq::new(kids.len(), |k: int| kid_addr(kids[k], a, k));
                        assert(rx.addrs =~= rp.addrs + t);
                        assert forall|k: int| 0 <= k < kids.len() implies node_at(root, #[trigger] a.push(k))
                            == Some(kids[k]) by {
                            lemma_node_at_push(root, a, k);
                        }
                        lemma_kids_weight(root, kids, a, kids.len() as int);
                        assert(kids.subrange(0, kids.len() as int) =~= kids);
                        lemma_pending_weight_concat(root, rp.addrs, t);
                        assert(pending_weight(root, rx.addrs) == pending_weight(root, rp.addrs) + forest_weight(kids));
                    },
                    FsNode::Node { listing: Err(_), .. } => {
                        assert(rx.addrs == rp.addrs.push(None));
                        lemma_pending_weight_concat(root, rp.addrs, seq![None::<Seq<int>>]);
                        assert(rp.addrs + seq![None::<Seq<int>>] =~= rp.addrs.push(None));
                        let one = seq![None::<Seq<int>>];
                        assert(one.drop_last() =~= Seq::<Option<Seq<int>>>::empty());
                        assert(pending_weight(root, one.drop_last()) == 0);
                        assert(one.last() == None::<Seq<int>>);
                        assert(pending_weight(root, one) == 1);
                        assert(pending_weight(root, rx.addrs) == pending_weight(root, rp.addrs) + 1);
                    },
                    FsNode::Unreadable { .. } => {},
                }
            }
            assert(r2 == visit_settle(rx, a, e));
            assert(r2.addrs == rx.addrs);
            assert(r2.held_addrs.len() <= rp.held_addrs.len() + 1);
            assert(pending_weight(root, rx.addrs) + 3 <= pending_weight(root, rp.addrs) + node_weight(n) + 1);
            assert(run_weight(r2, root) < run_weight(r, root));
        } else {
            assert(r2 == rp);
            assert(run_weight(r2, root) < run_weight(r, root));
        }
    }
}

proof fn lemma_weight_run(root: FsNode, options: WalkOptions, keep: spec_fn(DirEntry) -> bool, k: nat)
    ensures
        run(root, options, keep, k).done || run_weight(run(root, options, keep, k), root) + k
            <= node_weight(root) + 1,
    decreases k,
{
    if k == 0 {
        let r = run_start(root, options);
        assert(r.addrs.drop_last() =~= Seq::<Option<Seq<int>>>::empty());
        assert(pending_weight(root, r.addrs.drop_last()) == 0);
        assert(node_at(root, Seq::<int>::empty()) == Some(root));
        assert(item_weight(root, r.addrs.last()) == node_weight(root));
        assert(run_weight(r, root) == node_weight(root) + 1);
    } else {
        lemma_weight_run(root, options, keep, (k - 1) as nat);
        lemma_run_inv(root, options, keep, (k - 1) as nat);
        let r = run(root, options, keep, (k - 1) as nat);
        if !r.done {
            lemma_weight_step(r, root, keep);
        }
    }
}

/// A walk ends: within `node_weight(root) + 1` rounds the machine says it is
/// done, and it stays done.
pub proof fn law_walk_terminates(root: FsNode, options: WalkOptions, keep: spec_fn(DirEntry) -> bool, k: nat)
    requires
        k >= node_weight(root) + 1,
    ensures
        run(root, options, keep, k).done,
{
    lemma_weight_run(root, options, keep, k);
}

} // verus!
