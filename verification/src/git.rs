//! The entries that a file listing is made of.
use vstd::prelude::*;

verus! {

/// One line of a listing: a file, or a directory that the ignore rules hide.
#[derive(Debug, PartialEq, Eq)]
pub struct WorktreeEntry {
    /// The path below the listed directory, `/`-separated.
    pub path: String,
    /// Whether the ignore rules hide it.
    pub ignored: bool,
    /// Whether it stands for a whole directory.
    pub is_dir: bool,
}

/// What a `WorktreeEntry` says.
pub struct Entry {
    pub path: Seq<char>,
    pub ignored: bool,
    pub is_dir: bool,
}

impl View for WorktreeEntry {
    type V = Entry;

    open spec fn view(&self) -> Entry {
        Entry { path: self.path@, ignored: self.ignored, is_dir: self.is_dir }
    }
}

/// What each of `entries` says.
pub open spec fn entries_of(entries: Seq<WorktreeEntry>) -> Seq<Entry> {
    entries.map_values(|e: WorktreeEntry| e@)
}

} // verus!
