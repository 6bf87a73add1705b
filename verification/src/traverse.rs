use vstd::prelude::*;
use crate::entries::{FileEntry, models_of};

verus! {

/// What a stat call reports one directory entry to be. Entries that are
/// neither regular files nor directories (symbolic links, sockets,
/// devices) are reported as `Other` and the traversal skips them.
#[derive(Clone, Copy, Debug, PartialEq, Eq, Structural)]
pub enum EntryKind {
    File,
    Dir,
    Other,
}

/// One directory entry as the caller's listing reports it: its path,
/// its kind, and — meaningful for a regular file — its size in bytes.
pub struct RawEntry {
    pub path: String,
    pub kind: EntryKind,
    pub size: u64,
}

/// The regular files of a listing, in listing order, as models.
pub open spec fn files_of(s: Seq<RawEntry>) -> Seq<(Seq<char>, u64)>
    decreases s.len(),
{
    if s.len() == 0 {
        Seq::empty()
    } else {
        files_of(s.drop_last()) + if s.last().kind is File {
            seq![(s.last().path@, s.last().size)]
        } else {
            Seq::empty()
        }
    }
}

/// The directories of a listing, in listing order.
pub open spec fn dirs_of(s: Seq<RawEntry>) -> Seq<Seq<char>>
    decreases s.len(),
{
    if s.len() == 0 {
        Seq::empty()
    } else {
        dirs_of(s.drop_last()) + if s.last().kind is Dir {
            seq![s.last().path@]
        } else {
            Seq::empty()
        }
    }
}

/// The character sequences of a sequence of strings.
pub open spec fn paths_of(s: Seq<String>) -> Seq<Seq<char>> {
    s.map_values(|p: String| p@)
}

/// The state of a directory-tree traversal: a work list of directories
/// still to be listed, and the regular files found so far.
///
/// The traversal is iterative — an explicit work list instead of
/// recursive descent, so its depth never grows the call stack. The
/// caller does the listing itself: it takes the next pending directory,
/// lists it, and records the listing here; if any listing or stat
/// fails, it abandons the whole traversal and its partial result, as
/// the fail-fast policy demands.
pub struct Traverser {
    pub pending: Vec<String>,
    pub files: Vec<FileEntry>,
}

impl Traverser {
    /// The directories still to be listed, in work-list order.
    pub open spec fn pending_model(self) -> Seq<Seq<char>> {
        paths_of(self.pending@)
    }

    /// The files found so far, in order of discovery.
    pub open spec fn files_model(self) -> Seq<(Seq<char>, u64)> {
        models_of(self.files@)
    }

    /// Start a traversal at a root directory.
    pub fn new(root: String) -> (t: Traverser)
        ensures
            t.pending_model() == seq![root@],
            t.files_model() == Seq::<(Seq<char>, u64)>::empty(),
    {
        let ghost r = root@;
        let mut pending: Vec<String> = Vec::new();
        pending.push(root);
        let t = Traverser { pending, files: Vec::new() };
        proof {
            assert(t.pending_model() =~= seq![r]);
            assert(t.files_model() =~= Seq::<(Seq<char>, u64)>::empty());
        }
        t
    }

    /// Whether every reachable directory has been listed.
    pub fn finished(&self) -> (r: bool)
        ensures
            r == (self.pending@.len() == 0),
    {
        self.pending.len() == 0
    }

    /// Take the next directory to list: the most recently found one, so
    /// the descent is depth-first.
    pub fn next_dir(&mut self) -> (r: Option<String>)
        ensures
            old(self).pending@.len() == 0 ==> r is None && final(self).pending@ == old(
                self,
            ).pending@ && final(self).files@ == old(self).files@,
            old(self).pending@.len() > 0 ==> (r matches Some(p) && p@ == old(
                self,
            ).pending_model().last() && final(self).pending@ == old(self).pending@.drop_last()
                && final(self).files@ == old(self).files@),
    {
        self.pending.pop()
    }

    /// Record one directory's listing: every regular file is collected,
    /// every subdirectory joins the work list, and everything else is
    /// skipped.
    pub fn record_listing(&mut self, listing: &Vec<RawEntry>)
        ensures
            final(self).files_model() == old(self).files_model() + files_of(listing@),
            final(self).pending_model() == old(self).pending_model() + dirs_of(listing@),
    {
        let mut i: usize = 0;
        while i < listing.len()
            invariant
                0 <= i <= listing@.len(),
                self.files_model() == old(self).files_model() + files_of(
                    listing@.take(i as int),
                ),
                self.pending_model() == old(self).pending_model() + dirs_of(
                    listing@.take(i as int),
                ),
            decreases listing@.len() - i,
        {
            let ghost prev = *self;
            proof {
                assert(listing@.take(i + 1).drop_last() =~= listing@.take(i as int));
                assert(listing@.take(i + 1).last() == listing@[i as int]);
            }
            match listing[i].kind {
                EntryKind::File => {
                    let e = FileEntry { path: listing[i].path.clone(), size: listing[i].size };
                    self.files.push(e);
                    proof {
                        assert(self.files_model() =~= prev.files_model() + seq![
                            (listing@[i as int].path@, listing@[i as int].size),
                        ]);
                        assert(self.files_model() =~= old(self).files_model() + files_of(
                            listing@.take(i + 1),
                        ));
                    }
                },
                EntryKind::Dir => {
                    self.pending.push(listing[i].path.clone());
                    proof {
                        assert(self.pending_model() =~= prev.pending_model() + seq![
                            listing@[i as int].path@,
                        ]);
                        assert(self.pending_model() =~= old(self).pending_model() + dirs_of(
                            listing@.take(i + 1),
                        ));
                    }
                },
                EntryKind::Other => {
                    proof {
                        assert(files_of(listing@.take(i + 1)) =~= files_of(
                            listing@.take(i as int),
                        ));
                        assert(dirs_of(listing@.take(i + 1)) =~= dirs_of(listing@.take(i as int)));
                    }
                },
            }
            i = i + 1;
        }
        proof {
            assert(listing@.take(listing@.len() as int) =~= listing@);
        }
    }
}

} // verus!
