//! One row in a directory listing.
use vstd::prelude::*;

use crate::order::RankView;
use crate::path::FsPath;
use crate::path::SpelledView;
use crate::scan::ScanState;
use crate::scan::ScanView;

verus! {

/// One row in a directory listing.
#[verifier::ext_equal]
pub struct EntryView {
    pub name: Seq<char>,
    pub path: SpelledView,
    pub is_dir: bool,
    pub file_size: u64,
    pub is_parent: bool,
}

/// One row in a directory listing.
///
/// It has the size of a file, as of when the listing was built, but not that
/// of a directory, which changes as the scan goes on and is looked up by
/// [`DirEntry::current_size`].
#[derive(Debug)]
pub struct DirEntry {
    /// Display name; `".."` for the row that leads to the parent.
    pub name: String,
    /// Absolute path; for the row that leads to the parent, the parent.
    pub path: FsPath,
    pub is_dir: bool,
    /// The size that a file takes on disk; 0 for a directory.
    pub file_size: u64,
    /// Whether this is the row that leads to the parent.
    pub is_parent: bool,
}

impl View for DirEntry {
    type V = EntryView;

    open spec fn view(&self) -> EntryView {
        EntryView {
            name: self.name@,
            path: self.path.named(),
            is_dir: self.is_dir,
            file_size: self.file_size,
            is_parent: self.is_parent,
        }
    }
}

impl Clone for DirEntry {
    fn clone(&self) -> (r: DirEntry)
        ensures
            r@ == self@,
    {
        DirEntry {
            name: self.name.clone(),
            path: self.path.clone(),
            is_dir: self.is_dir,
            file_size: self.file_size,
            is_parent: self.is_parent,
        }
    }
}

/// The views of a listing.
pub open spec fn entry_views(entries: Seq<DirEntry>) -> Seq<EntryView> {
    Seq::new(entries.len(), |i: int| entries[i]@)
}

impl EntryView {
    /// The size to show: none for the row that leads to the parent, that of
    /// the scan for a directory.
    pub open spec fn size_now(self, scan: ScanView) -> u64 {
        if self.is_parent {
            0
        } else if self.is_dir {
            crate::scan::size_in(scan.dir_sizes, self.path.at)
        } else {
            self.file_size
        }
    }

    /// Whether the row is a directory that the scan has yet to complete; never
    /// so for files and for the row that leads to the parent.
    pub open spec fn scanning_now(self, scan: ScanView) -> bool {
        self.is_dir && !self.is_parent && scan.scanning && !scan.completed.contains(self.path.at)
    }

    /// The rank of a row when the largest come first. Here the row that leads
    /// to the parent has the parent's size, which matters only beside another
    /// such row.
    pub open spec fn rank_by_size(self, scan: ScanView) -> RankView {
        RankView {
            pinned: self.is_parent,
            weight: if self.is_dir {
                crate::scan::size_in(scan.dir_sizes, self.path.at) as nat
            } else {
                self.file_size as nat
            },
            text: Seq::empty(),
        }
    }

    /// The rank of a row when names are in order, whatever their case.
    pub open spec fn rank_by_name(self) -> RankView {
        RankView {
            pinned: self.is_parent,
            weight: 0,
            text: crate::text::sort_bytes(self.name),
        }
    }
}

impl DirEntry {
    /// The size to show as of now.
    pub fn current_size(&self, scan: &ScanState) -> (r: u64)
        ensures
            r == self@.size_now(scan@),
    {
        if self.is_parent {
            0
        } else if self.is_dir {
            match scan.get_size(&self.path) {
                Some(size) => size,
                None => 0,
            }
        } else {
            self.file_size
        }
    }

    /// Whether this is a directory that the scan has yet to complete. Always
    /// false for files and for the row that leads to the parent.
    pub fn is_scanning(&self, scan: &ScanState) -> (r: bool)
        ensures
            r == self@.scanning_now(scan@),
    {
        if !self.is_dir || self.is_parent {
            return false;
        }
        scan.is_scanning() && !scan.is_completed(&self.path)
    }
}

/// The sum of the sizes to show.
pub open spec fn sizes_sum(entries: Seq<EntryView>, scan: ScanView) -> nat
    decreases entries.len(),
{
    if entries.len() == 0 {
        0
    } else {
        sizes_sum(entries.drop_last(), scan) + entries.last().size_now(scan) as nat
    }
}

/// The row that leads to the parent adds nothing to the sum: without it the
/// sum is the same.
pub proof fn law_parent_row_adds_nothing(entries: Seq<EntryView>, scan: ScanView)
    ensures
        sizes_sum(entries, scan) == sizes_sum(
            entries.filter(|e: EntryView| !e.is_parent),
            scan,
        ),
    decreases entries.len(),
{
    let p = |e: EntryView| !e.is_parent;
    reveal(Seq::filter);
    if entries.len() > 0 {
        law_parent_row_adds_nothing(entries.drop_last(), scan);
        let rest = entries.drop_last().filter(p);
        if p(entries.last()) {
            assert(rest.push(entries.last()).drop_last() =~= rest);
        }
    }
}

} // verus!
