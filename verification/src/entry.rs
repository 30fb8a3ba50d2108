//! The records of a listing: what a scan reports of each child, and the entry
//! that a listing holds for it.

use vstd::prelude::*;

verus! {

/// When a child was last modified, as far as the filesystem could tell.
#[derive(Debug, Clone, Copy, PartialEq, Eq)]
pub enum ModifiedTime {
    /// The filesystem gave no modification time.
    Unavailable,
    /// The modification time lies before the Unix epoch.
    BeforeEpoch,
    /// Whole seconds from the Unix epoch to the modification time.
    SinceEpoch(u64),
}

impl ModifiedTime {
    /// Seconds since the epoch, with the epoch itself standing for a time
    /// that is missing or earlier.
    pub open spec fn epoch_seconds(self) -> u64 {
        match self {
            ModifiedTime::SinceEpoch(seconds) => seconds,
            _ => 0,
        }
    }

    /// Seconds since the epoch; 0 when the time is missing or earlier.
    pub fn seconds(self) -> (seconds: u64)
        ensures
            seconds == self.epoch_seconds(),
    {
        match self {
            ModifiedTime::SinceEpoch(seconds) => seconds,
            ModifiedTime::BeforeEpoch => 0,
            ModifiedTime::Unavailable => 0,
        }
    }
}

/// The attributes of a child that a listing reports.
#[derive(Debug, Clone, Copy, PartialEq, Eq)]
pub struct Metadata {
    pub is_dir: bool,
    pub size: u64,
    pub modified: ModifiedTime,
}

/// What enumerating a directory yielded for one child.
#[derive(Debug, Clone, PartialEq, Eq)]
pub enum ScanItem {
    /// The filesystem failed to yield this child.
    Unreadable,
    /// A child with its name and full path as text; `metadata` is `None` when
    /// its attributes could not be had.
    Child { name: String, path: String, metadata: Option<Metadata> },
}

/// A `ScanItem` with its texts as character sequences.
pub enum ScanItemView {
    Unreadable,
    Child { name: Seq<char>, path: Seq<char>, metadata: Option<Metadata> },
}

impl View for ScanItem {
    type V = ScanItemView;

    open spec fn view(&self) -> ScanItemView {
        match *self {
            ScanItem::Unreadable => ScanItemView::Unreadable,
            ScanItem::Child { name, path, metadata } => ScanItemView::Child {
                name: name@,
                path: path@,
                metadata,
            },
        }
    }
}

impl DeepView for ScanItem {
    type V = ScanItemView;

    open spec fn deep_view(&self) -> ScanItemView {
        self@
    }
}

/// One child of a listed directory.
#[derive(Debug, Clone, PartialEq, Eq)]
pub struct FileEntry {
    pub name: String,
    pub path: String,
    pub is_dir: bool,
    pub size: u64,
    pub modified: u64,
}

/// A `FileEntry` with its texts as character sequences.
pub struct EntryView {
    pub name: Seq<char>,
    pub path: Seq<char>,
    pub is_dir: bool,
    pub size: u64,
    pub modified: u64,
}

impl View for FileEntry {
    type V = EntryView;

    open spec fn view(&self) -> EntryView {
        EntryView {
            name: self.name@,
            path: self.path@,
            is_dir: self.is_dir,
            size: self.size,
            modified: self.modified,
        }
    }
}

impl DeepView for FileEntry {
    type V = EntryView;

    open spec fn deep_view(&self) -> EntryView {
        self@
    }
}

/// Options of one listing request.
#[derive(Debug, Clone, Copy, PartialEq, Eq)]
pub struct ReadDirectoryOptions {
    /// Whether hidden children are listed; `None` leaves them out.
    pub show_hidden: Option<bool>,
}

/// The flag that governs a listing: hidden children are left out unless the
/// options ask for them.
pub open spec fn shows_hidden(options: Option<ReadDirectoryOptions>) -> bool {
    match options {
        Some(ReadDirectoryOptions { show_hidden: Some(flag) }) => flag,
        _ => false,
    }
}

/// Resolves the options of a request to the flag that governs the listing.
pub fn show_hidden(options: Option<ReadDirectoryOptions>) -> (flag: bool)
    ensures
        flag == shows_hidden(options),
{
    match options {
        Some(ReadDirectoryOptions { show_hidden: Some(flag) }) => flag,
        _ => false,
    }
}

} // verus!
