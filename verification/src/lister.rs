//! Listing a directory from what a scan of it reported.

use vstd::prelude::*;
use crate::entry::{
    show_hidden, shows_hidden, EntryView, FileEntry, ReadDirectoryOptions, ScanItem, ScanItemView,
};
use crate::error::{ListError, ListErrorView};
use crate::order::in_order;
use crate::sort::sort_entries;
use crate::text::{hidden, is_hidden};

verus! {

/// Whether a child of this name belongs to a listing: always when hidden
/// children are shown, otherwise when its name is not hidden.
pub open spec fn listable(name: Seq<char>, show_hidden: bool) -> bool {
    show_hidden || !hidden(name)
}

/// The entry that a listing holds for a scan item, if it holds one: none for
/// a child that could not be read, that is hidden from this listing, or whose
/// attributes could not be had.
pub open spec fn kept(item: ScanItemView, show_hidden: bool) -> Option<EntryView> {
    match item {
        ScanItemView::Unreadable => None,
        ScanItemView::Child { name, path, metadata } => match metadata {
            Some(attributes) if listable(name, show_hidden) => Some(
                EntryView {
                    name,
                    path,
                    is_dir: attributes.is_dir,
                    size: attributes.size,
                    modified: attributes.modified.epoch_seconds(),
                },
            ),
            _ => None,
        },
    }
}

/// The entries kept of a scan, in the order of the scan.
pub open spec fn gathered(items: Seq<ScanItemView>, show_hidden: bool) -> Seq<EntryView>
    decreases items.len(),
{
    if items.len() == 0 {
        Seq::empty()
    } else {
        let before = gathered(items.drop_last(), show_hidden);
        match kept(items.last(), show_hidden) {
            Some(entry) => before.push(entry),
            None => before,
        }
    }
}

/// Tells whether a child of this name belongs to a listing, and so whether
/// its attributes are worth fetching.
pub fn is_listable(name: &str, show_hidden: bool) -> (wanted: bool)
    ensures
        wanted == listable(name@, show_hidden),
{
    show_hidden || !is_hidden(name)
}

/// Turns one scan item into the entry that the listing holds for it, or into
/// nothing where the listing skips it.
pub fn entry_of(item: ScanItem, show_hidden: bool) -> (entry: Option<FileEntry>)
    ensures
        entry.deep_view() == kept(item@, show_hidden),
{
    match item {
        ScanItem::Unreadable => None,
        ScanItem::Child { name, path, metadata } => {
            if !is_listable(name.as_str(), show_hidden) {
                return None;
            }
            match metadata {
                None => None,
                Some(attributes) => Some(
                    FileEntry {
                        name,
                        path,
                        is_dir: attributes.is_dir,
                        size: attributes.size,
                        modified: attributes.modified.seconds(),
                    },
                ),
            }
        },
    }
}

/// Gathers the entries that a listing keeps of a scan, in the order of the
/// scan.
pub fn gather(items: Vec<ScanItem>, show_hidden: bool) -> (entries: Vec<FileEntry>)
    ensures
        entries.deep_view() == gathered(items.deep_view(), show_hidden),
{
    let ghost scan = items@;
    let ghost all = items.deep_view();
    let mut entries: Vec<FileEntry> = Vec::new();
    for item in it: items
        invariant
            it.seq() == scan,
            all.len() == scan.len(),
            forall|i: int| 0 <= i < scan.len() ==> all[i] == (#[trigger] scan[i])@,
            entries.deep_view() == gathered(all.take(it.index() as int), show_hidden),
    {
        let ghost seen = all.take(it.index() as int);
        let ghost before = entries.deep_view();
        proof {
            assert(all.take(it.index() + 1).drop_last() =~= seen);
            assert(all.take(it.index() + 1).last() == item@);
        }
        if let Some(entry) = entry_of(item, show_hidden) {
            entries.push(entry);
            proof {
                assert(entries.deep_view() =~= before.push(entry@));
            }
        }
    }
    proof {
        assert(all.take(all.len() as int) =~= all);
    }
    entries
}

/// What is wrong with the path itself, if anything: it must exist, and then
/// it must be a directory.
pub open spec fn path_fault(path: Seq<char>, exists: bool, is_dir: bool) -> Option<ListErrorView> {
    if !exists {
        Some(ListErrorView::NotFound(path))
    } else if !is_dir {
        Some(ListErrorView::NotADirectory(path))
    } else {
        None
    }
}

/// The listing of a scan: the entries kept of it, in listing order.
pub open spec fn listing(items: Seq<ScanItemView>, show_hidden: bool) -> Seq<EntryView> {
    in_order(gathered(items, show_hidden))
}

/// The result of listing `path`, given whether it exists, whether it is a
/// directory, and what enumerating it gave: the children met, or the
/// operating system's words for why it could not be enumerated. The first
/// fault in that order decides, and a fault leaves no entries.
pub open spec fn outcome(
    path: Seq<char>,
    exists: bool,
    is_dir: bool,
    scan: Result<Seq<ScanItemView>, Seq<char>>,
    show_hidden: bool,
) -> Result<Seq<EntryView>, ListErrorView> {
    match path_fault(path, exists, is_dir) {
        Some(fault) => Err(fault),
        None => match scan {
            Err(cause) => Err(ListErrorView::ReadError(cause)),
            Ok(items) => Ok(listing(items, show_hidden)),
        },
    }
}

/// A scan with its texts as character sequences.
pub open spec fn scan_view(scan: Result<Vec<ScanItem>, String>) -> Result<
    Seq<ScanItemView>,
    Seq<char>,
> {
    match scan {
        Ok(items) => Ok(items.deep_view()),
        Err(cause) => Err(cause@),
    }
}

/// The result of a listing with its texts as character sequences.
pub open spec fn result_view(result: Result<Vec<FileEntry>, ListError>) -> Result<
    Seq<EntryView>,
    ListErrorView,
> {
    match result {
        Ok(entries) => Ok(entries.deep_view()),
        Err(fault) => Err(fault@),
    }
}

/// Checks the path itself, before anything is enumerated: fails with
/// `NotFound` where nothing exists at the path, with `NotADirectory` where
/// something exists that is no directory; both carry the path.
pub fn check_path(path: &str, exists: bool, is_dir: bool) -> (checked: Result<(), ListError>)
    ensures
        match path_fault(path@, exists, is_dir) {
            Some(fault) => checked matches Err(found) && found@ == fault,
            None => checked is Ok,
        },
{
    if !exists {
        Err(ListError::NotFound(path.to_owned()))
    } else if !is_dir {
        Err(ListError::NotADirectory(path.to_owned()))
    } else {
        Ok(())
    }
}

/// Lists the children that a scan met: gathers the entries kept and puts
/// them into listing order.
pub fn list_children(items: Vec<ScanItem>, show_hidden: bool) -> (entries: Vec<FileEntry>)
    ensures
        entries.deep_view() == listing(items.deep_view(), show_hidden),
{
    sort_entries(gather(items, show_hidden))
}

/// Lists the directory at `path` from what the filesystem reported of it.
pub fn list(
    path: &str,
    exists: bool,
    is_dir: bool,
    scan: Result<Vec<ScanItem>, String>,
    options: Option<ReadDirectoryOptions>,
) -> (result: Result<Vec<FileEntry>, ListError>)
    ensures
        result_view(result) == outcome(
            path@,
            exists,
            is_dir,
            scan_view(scan),
            shows_hidden(options),
        ),
{
    match check_path(path, exists, is_dir) {
        Err(fault) => Err(fault),
        Ok(()) => match scan {
            Err(cause) => Err(ListError::ReadError(cause)),
            Ok(items) => Ok(list_children(items, show_hidden(options))),
        },
    }
}

/// Lists the directory at `path` as `list` does, with a failure flattened to
/// its message.
pub fn read_directory(
    path: &str,
    exists: bool,
    is_dir: bool,
    scan: Result<Vec<ScanItem>, String>,
    options: Option<ReadDirectoryOptions>,
) -> (result: Result<Vec<FileEntry>, String>)
    ensures
        match outcome(path@, exists, is_dir, scan_view(scan), shows_hidden(options)) {
            Ok(entries) => result matches Ok(listed) && listed.deep_view() == entries,
            Err(fault) => result matches Err(message) && message@ == fault.message(),
        },
{
    match list(path, exists, is_dir, scan, options) {
        Ok(entries) => Ok(entries),
        Err(fault) => Err(fault.message()),
    }
}

} // verus!
