//! Breadth-first collection of the regular files under a directory root.
//!
//! The filesystem is not read here: the caller drives the traversal. It takes
//! the oldest pending directory with [`Collector::take_next`], lists it, and
//! hands the listing back with [`Collector::step`]. Regular files are
//! collected in listing order; subdirectories are queued behind the
//! directories already pending, so a whole level is expanded before anything
//! deeper. A listing failure aborts the traversal: the files gathered so far
//! are kept as a partial result, and the error is recorded beside them.

use vstd::prelude::*;

verus! {

/// The classification of a filesystem entry, as the filesystem reports it.
#[derive(Clone, Copy, PartialEq, Eq, Structural, Debug)]
pub enum EntryKind {
    File,
    Directory,
    Other,
}

/// A filesystem entry: its path and its cached classification.
#[derive(Debug, PartialEq, Eq)]
pub struct FileHandle {
    pub path: String,
    pub kind: EntryKind,
}

/// The failures a search run distinguishes: the root path does not exist, a
/// selected file could not be read as text, or a directory listing (or an
/// entry's classification) failed mid-walk.
#[derive(Clone, Copy, PartialEq, Eq, Structural, Debug)]
pub enum SearchError {
    PathNotFound,
    UnreadableFile,
    TraversalError,
}

/// The regular files among `entries`, in order.
pub open spec fn files_of(entries: Seq<FileHandle>) -> Seq<FileHandle> {
    entries.filter(|e: FileHandle| e.kind is File)
}

/// The subdirectories among `entries`, in order.
pub open spec fn dirs_of(entries: Seq<FileHandle>) -> Seq<FileHandle> {
    entries.filter(|e: FileHandle| e.kind is Directory)
}

pub struct Collector {
    pending: Vec<FileHandle>,
    files: Vec<FileHandle>,
    error: Option<SearchError>,
}

impl Collector {
    /// The directories waiting to be expanded, oldest first.
    pub closed spec fn pending_view(self) -> Seq<FileHandle> {
        self.pending@
    }

    /// The files collected so far, in collection order.
    pub closed spec fn files_view(self) -> Seq<FileHandle> {
        self.files@
    }

    /// The error that aborted the traversal, if one did.
    pub closed spec fn error_view(self) -> Option<SearchError> {
        self.error
    }

    /// Everything queued for expansion is a directory: the traversal never
    /// recurses into a file as though it were one.
    pub open spec fn wf(self) -> bool {
        forall|i: int|
            0 <= i < self.pending_view().len() ==> (#[trigger] self.pending_view()[i]).kind
                is Directory
    }

    /// The traversal is over: nothing is pending, or it was aborted.
    pub open spec fn done(self) -> bool {
        self.pending_view().len() == 0 || self.error_view() is Some
    }

    /// Start a traversal at the directory `root`.
    pub fn new(root: String) -> (c: Collector)
        ensures
            c.pending_view() == seq![
                (FileHandle { path: root, kind: EntryKind::Directory }),
            ],
            c.files_view() == Seq::<FileHandle>::empty(),
            c.error_view() is None,
            c.wf(),
    {
        let mut pending: Vec<FileHandle> = Vec::new();
        pending.push(FileHandle { path: root, kind: EntryKind::Directory });
        let c = Collector { pending, files: Vec::new(), error: None };
        proof {
            assert(c.pending_view() =~= seq![
                (FileHandle { path: root, kind: EntryKind::Directory }),
            ]);
        }
        c
    }

    /// Hand out the next directory to expand: the oldest pending one (FIFO),
    /// removed from the queue. `None` once the traversal is done.
    pub fn take_next(&mut self) -> (r: Option<FileHandle>)
        ensures
            old(self).done() ==> r is None && *final (self) == *old(self),
            !old(self).done() ==> {
                &&& r == Some(old(self).pending_view()[0])
                &&& final (self).pending_view() == old(self).pending_view().drop_first()
                &&& final (self).files_view() == old(self).files_view()
                &&& final (self).error_view() == old(self).error_view()
            },
            old(self).wf() ==> final (self).wf(),
    {
        if self.error.is_some() || self.pending.len() == 0 {
            return None;
        }
        let h = self.pending.remove(0);
        proof {
            assert(self.pending_view() =~= old(self).pending_view().drop_first());
        }
        Some(h)
    }

    /// Record the listing of the directory just taken. On `Ok`, its regular
    /// files are appended to the collected files in listing order and its
    /// subdirectories are queued behind the pending ones (FIFO); entries of
    /// any other kind are skipped. On `Err`, the traversal aborts: the queue
    /// is dropped, the files collected so far stay as a partial result, and
    /// the error is recorded.
    pub fn step(&mut self, listing: Result<Vec<FileHandle>, SearchError>)
        requires
            old(self).error_view() is None,
        ensures
            match listing {
                Ok(entries) => {
                    &&& final (self).files_view() == old(self).files_view() + files_of(entries@)
                    &&& final (self).pending_view() == old(self).pending_view() + dirs_of(entries@)
                    &&& final (self).error_view() is None
                },
                Err(e) => {
                    &&& final (self).files_view() == old(self).files_view()
                    &&& final (self).pending_view().len() == 0
                    &&& final (self).error_view() == Some(e)
                },
            },
            old(self).wf() ==> final (self).wf(),
    {
        match listing {
            Ok(mut entries) => {
                let ghost orig = entries@;
                let ghost pending0 = self.pending@;
                let ghost files0 = self.files@;
                let ghost k: int = 0;
                proof {
                    assert(orig.subrange(0, 0) =~= Seq::<FileHandle>::empty());
                    lemma_filter_empty();
                    assert(entries@ =~= orig.subrange(0, orig.len() as int));
                    assert(self.files@ + files_of(orig.subrange(0, 0)) =~= files0);
                    assert(self.pending@ + dirs_of(orig.subrange(0, 0)) =~= pending0);
                }
                while entries.len() > 0
                    invariant
                        0 <= k <= orig.len(),
                        entries@ == orig.subrange(k, orig.len() as int),
                        self.files@ == files0 + files_of(orig.subrange(0, k)),
                        self.pending@ == pending0 + dirs_of(orig.subrange(0, k)),
                        self.error == Option::<SearchError>::None,
                    decreases entries@.len(),
                {
                    let e = entries.remove(0);
                    proof {
                        assert(e == orig[k]);
                        assert(entries@ =~= orig.subrange(k + 1, orig.len() as int));
                        assert(orig.subrange(0, k + 1) =~= orig.subrange(0, k).push(orig[k]));
                        lemma_filter_push(orig.subrange(0, k), orig[k]);
                    }
                    match e.kind {
                        EntryKind::Directory => {
                            self.pending.push(e);
                        },
                        EntryKind::File => {
                            self.files.push(e);
                        },
                        EntryKind::Other => {},
                    }
                    proof {
                        k = k + 1;
                        assert(self.files@ =~= files0 + files_of(orig.subrange(0, k)));
                        assert(self.pending@ =~= pending0 + dirs_of(orig.subrange(0, k)));
                    }
                }
                proof {
                    assert(orig.subrange(0, orig.len() as int) =~= orig);
                    if old(self).wf() {
                        assert forall|i: int|
                            0 <= i < self.pending_view().len() implies (
                        #[trigger] self.pending_view()[i]).kind is Directory by {
                            if i >= pending0.len() {
                                Seq::lemma_filter_pred(
                                    orig,
                                    |e: FileHandle| e.kind is Directory,
                                    i - pending0.len(),
                                );
                            }
                        }
                    }
                }
            },
            Err(e) => {
                self.pending.clear();
                self.error = Some(e);
            },
        }
    }

    /// Finish, handing over the outcome: the collected files and, if the
    /// traversal was aborted, the error that stopped it — the list is then
    /// the partial result gathered before the failure.
    pub fn into_result(self) -> (r: (Vec<FileHandle>, Option<SearchError>))
        ensures
            r.0@ == self.files_view(),
            r.1 == self.error_view(),
    {
        (self.files, self.error)
    }
}

proof fn lemma_filter_empty()
    ensures
        files_of(Seq::<FileHandle>::empty()) == Seq::<FileHandle>::empty(),
        dirs_of(Seq::<FileHandle>::empty()) == Seq::<FileHandle>::empty(),
{
    reveal(Seq::filter);
}

/// Filtering a sequence extended by one element keeps the filtered prefix and
/// appends the element exactly when it satisfies the predicate.
proof fn lemma_filter_push(s: Seq<FileHandle>, e: FileHandle)
    ensures
        files_of(s.push(e)) == if e.kind is File {
            files_of(s).push(e)
        } else {
            files_of(s)
        },
        dirs_of(s.push(e)) == if e.kind is Directory {
            dirs_of(s).push(e)
        } else {
            dirs_of(s)
        },
{
    reveal(Seq::filter);
    assert(s.push(e).drop_last() =~= s);
    assert(s.push(e).last() == e);
}

/// A directory that holds only regular files is collected exactly: its
/// listing contributes precisely those files, in listing order — no
/// omission, no duplicate — and queues nothing. With `Collector::new` and
/// `Collector::step`, expanding the root with such a listing therefore ends
/// the traversal with exactly the listed files.
pub proof fn lemma_flat_directory_collects_all(entries: Seq<FileHandle>)
    requires
        forall|i: int| 0 <= i < entries.len() ==> (#[trigger] entries[i]).kind is File,
    ensures
        files_of(entries) == entries,
        dirs_of(entries) == Seq::<FileHandle>::empty(),
    decreases entries.len(),
{
    if entries.len() == 0 {
        lemma_filter_empty();
    } else {
        assert(entries.drop_last().push(entries.last()) =~= entries);
        lemma_flat_directory_collects_all(entries.drop_last());
        lemma_filter_push(entries.drop_last(), entries.last());
    }
}

/// Expanding one directory is breadth-first and never treats a file as a
/// directory: every regular file of a listing is collected and every
/// subdirectory is queued (each keeping the listing's relative order), only
/// directories are ever queued, and only regular files are ever collected.
pub proof fn lemma_step_breadth_first(entries: Seq<FileHandle>)
    ensures
        forall|i: int|
            0 <= i < entries.len() && (#[trigger] entries[i]).kind is File ==> files_of(
                entries,
            ).contains(entries[i]),
        forall|i: int|
            0 <= i < entries.len() && (#[trigger] entries[i]).kind is Directory ==> dirs_of(
                entries,
            ).contains(entries[i]),
        forall|i: int|
            0 <= i < dirs_of(entries).len() ==> (#[trigger] dirs_of(entries)[i]).kind is Directory,
        forall|i: int|
            0 <= i < files_of(entries).len() ==> (#[trigger] files_of(entries)[i]).kind is File,
{
    assert forall|i: int|
        0 <= i < entries.len() && (#[trigger] entries[i]).kind is File implies files_of(
        entries,
    ).contains(entries[i]) by {
        Seq::lemma_filter_contains(entries, |e: FileHandle| e.kind is File, i);
    }
    assert forall|i: int|
        0 <= i < entries.len() && (#[trigger] entries[i]).kind is Directory implies dirs_of(
        entries,
    ).contains(entries[i]) by {
        Seq::lemma_filter_contains(entries, |e: FileHandle| e.kind is Directory, i);
    }
    assert forall|i: int| 0 <= i < dirs_of(entries).len() implies (
    #[trigger] dirs_of(entries)[i]).kind is Directory by {
        Seq::lemma_filter_pred(entries, |e: FileHandle| e.kind is Directory, i);
    }
    assert forall|i: int| 0 <= i < files_of(entries).len() implies (
    #[trigger] files_of(entries)[i]).kind is File by {
        Seq::lemma_filter_pred(entries, |e: FileHandle| e.kind is File, i);
    }
}

} // verus!
