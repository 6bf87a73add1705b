use vstd::prelude::*;

verus! {

/// One regular file found by a scan: its path and its size in bytes.
#[derive(Debug)]
pub struct FileEntry {
    pub path: String,
    pub size: u64,
}

impl FileEntry {
    /// The mathematical value of an entry: the path's characters and the size.
    pub open spec fn model(self) -> (Seq<char>, u64) {
        (self.path@, self.size)
    }
}

impl Clone for FileEntry {
    fn clone(&self) -> (r: Self)
        ensures
            r.model() == self.model(),
    {
        FileEntry { path: self.path.clone(), size: self.size }
    }
}

/// The models of a sequence of entries, in order.
pub open spec fn models_of(s: Seq<FileEntry>) -> Seq<(Seq<char>, u64)> {
    s.map_values(|e: FileEntry| e.model())
}

/// Sorted by non-increasing size.
pub open spec fn sorted_desc(s: Seq<(Seq<char>, u64)>) -> bool {
    forall|i: int, j: int| 0 <= i <= j < s.len() ==> s[i].1 >= s[j].1
}

/// A ranking: entries ordered by descending size, largest first.
pub struct RankedList {
    pub entries: Vec<FileEntry>,
}

/// Which entry a delete-by-rank request selects, if any.
///
/// Ranks are 1-based: rank 1 is the largest entry. A request is honoured
/// exactly when its index lies within the actual length of the list; an
/// index of zero or one beyond the length selects nothing and the
/// operation is a silent no-op.
pub open spec fn chosen_rank(len: int, index: u8) -> Option<int> {
    if 1 <= index && index <= len {
        Some(index - 1)
    } else {
        None
    }
}

impl RankedList {
    /// The mathematical value of the ranking.
    pub open spec fn model(self) -> Seq<(Seq<char>, u64)> {
        models_of(self.entries@)
    }

    /// A well-formed ranking is sorted by non-increasing size.
    pub open spec fn wf(self) -> bool {
        sorted_desc(self.model())
    }

    /// The number of ranked entries.
    pub fn len(&self) -> (n: usize)
        ensures
            n == self.entries@.len(),
    {
        self.entries.len()
    }

    /// Decide which file a delete-by-rank request removes.
    ///
    /// Returns the path of the selected entry, or `None` when the index is
    /// out of bounds, in which case the caller must touch nothing.
    pub fn delete_target(&self, index: u8) -> (r: Option<String>)
        ensures
            match chosen_rank(self.entries@.len() as int, index) {
                Some(k) => r matches Some(p) && p@ == self.entries@[k].path@,
                None => r is None,
            },
    {
        if index == 0 || index as usize > self.entries.len() {
            None
        } else {
            Some(self.entries[index as usize - 1].path.clone())
        }
    }
}

/// Bound-check law: a delete request with index zero, or with an index
/// beyond any bound `capacity` that is at least the list's length, selects
/// nothing, whatever the actual length is.
pub proof fn lemma_delete_out_of_bounds_is_noop(len: int, capacity: int, index: u8)
    requires
        0 <= len <= capacity,
        index == 0 || index > capacity,
    ensures
        chosen_rank(len, index) is None,
{
}

} // verus!
