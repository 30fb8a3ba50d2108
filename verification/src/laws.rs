//! What holds of every listing: which children it holds, how it is ordered,
//! and that it depends on nothing but what was reported.

use vstd::prelude::*;
use crate::entry::{EntryView, FileEntry, ReadDirectoryOptions, ScanItem, ScanItemView};
use crate::error::ListError;
use crate::lister::{gathered, kept, list, listing, result_view, scan_view};
use crate::order::{
    directories_first, directory_count, in_order_filter, in_order_groups, in_order_is_permutation,
    in_order_len, in_order_splits, names_ascend,
};
use crate::text::hidden;

verus! {

/// The entries whose names are not hidden, as a predicate.
pub open spec fn visible() -> spec_fn(EntryView) -> bool {
    |e: EntryView| !hidden(e.name)
}

/// The entries gathered from a scan are exactly those kept of its items.
pub proof fn gathered_membership(items: Seq<ScanItemView>, show_hidden: bool, e: EntryView)
    ensures
        gathered(items, show_hidden).contains(e) <==> exists|i: int|
            0 <= i < items.len() && kept(#[trigger] items[i], show_hidden) == Some(e),
    decreases items.len(),
{
    let found = gathered(items, show_hidden);
    if items.len() > 0 {
        let rest = items.drop_last();
        let before = gathered(rest, show_hidden);
        gathered_membership(rest, show_hidden, e);
        if found.contains(e) {
            let k = choose|k: int| 0 <= k < found.len() && found[k] == e;
            if k < before.len() {
                assert(before[k] == e);
                let i = choose|i: int|
                    0 <= i < rest.len() && kept(#[trigger] rest[i], show_hidden) == Some(e);
                assert(items[i] == rest[i]);
            } else {
                assert(kept(items[items.len() - 1], show_hidden) == Some(e));
            }
        }
        if exists|i: int|
            0 <= i < items.len() && kept(#[trigger] items[i], show_hidden) == Some(e) {
            let i = choose|i: int|
                0 <= i < items.len() && kept(#[trigger] items[i], show_hidden) == Some(e);
            if i < rest.len() {
                assert(rest[i] == items[i]);
                let k = choose|k: int| 0 <= k < before.len() && before[k] == e;
                assert(found[k] == e);
            } else {
                assert(found[found.len() - 1] == e);
            }
        }
    }
}

/// A listing holds the entries gathered from the scan, each as often as it
/// was gathered.
pub proof fn listing_is_permutation(items: Seq<ScanItemView>, show_hidden: bool)
    ensures
        listing(items, show_hidden).to_multiset() == gathered(items, show_hidden).to_multiset(),
        listing(items, show_hidden).len() == gathered(items, show_hidden).len(),
{
    in_order_is_permutation(gathered(items, show_hidden));
    in_order_len(gathered(items, show_hidden));
}

/// An entry is in a listing exactly when the listing keeps it of some item
/// of the scan: a child that could be read, with its attributes, and not
/// hidden unless hidden children are shown.
pub proof fn listing_membership(items: Seq<ScanItemView>, show_hidden: bool, e: EntryView)
    ensures
        listing(items, show_hidden).contains(e) <==> exists|i: int|
            0 <= i < items.len() && kept(#[trigger] items[i], show_hidden) == Some(e),
{
    gathered_membership(items, show_hidden, e);
    listing_is_permutation(items, show_hidden);
    vstd::seq_lib::to_multiset_contains(listing(items, show_hidden), e);
    vstd::seq_lib::to_multiset_contains(gathered(items, show_hidden), e);
}

/// A listing that does not show hidden children holds no entry with a hidden
/// name.
pub proof fn default_listing_has_no_hidden(items: Seq<ScanItemView>)
    ensures
        forall|k: int|
            0 <= k < listing(items, false).len() ==> !hidden(
                (#[trigger] listing(items, false)[k]).name,
            ),
{
    let shown = listing(items, false);
    assert forall|k: int| 0 <= k < shown.len() implies !hidden((#[trigger] shown[k]).name) by {
        assert(shown.contains(shown[k]));
        listing_membership(items, false, shown[k]);
    }
}

/// A listing that shows hidden children holds an entry for every child that
/// could be read with its attributes, hidden or not.
pub proof fn full_listing_has_every_child(items: Seq<ScanItemView>, i: int)
    requires
        0 <= i < items.len(),
        items[i] matches ScanItemView::Child { metadata, .. } && metadata is Some,
    ensures
        kept(items[i], true) is Some,
        listing(items, true).contains(kept(items[i], true).unwrap()),
{
    listing_membership(items, true, kept(items[i], true).unwrap());
}

/// In a listing the directories come first, and among the directories and
/// among the files folded names never descend.
pub proof fn listing_groups(items: Seq<ScanItemView>, show_hidden: bool)
    ensures
        directories_first(listing(items, show_hidden)),
        names_ascend(listing(items, show_hidden)),
{
    in_order_groups(gathered(items, show_hidden));
}

/// A listing is a run of directories followed by a run of files: exactly its
/// first entries, as many as directories were gathered, are directories.
pub proof fn listing_splits(items: Seq<ScanItemView>, show_hidden: bool)
    ensures
        forall|k: int|
            0 <= k < listing(items, show_hidden).len() ==> (listing(
                items,
                show_hidden,
            )[k].is_dir <==> k < directory_count(gathered(items, show_hidden))),
{
    in_order_splits(gathered(items, show_hidden));
}

/// What is gathered without hidden children is what is gathered with them,
/// less the entries with hidden names.
pub proof fn gathered_visible(items: Seq<ScanItemView>)
    ensures
        gathered(items, false) == gathered(items, true).filter(visible()),
    decreases items.len(),
{
    reveal(Seq::filter);
    if items.len() > 0 {
        let rest = items.drop_last();
        gathered_visible(rest);
        if kept(items.last(), true) is Some {
            let all = gathered(rest, true);
            let e = kept(items.last(), true).unwrap();
            assert(all.push(e).drop_last() =~= all);
        }
    } else {
        assert(gathered(items, true).filter(visible()) =~= Seq::<EntryView>::empty());
    }
}

/// The listing without hidden children is the listing with them, less the
/// entries with hidden names: showing hidden children adds them where they
/// belong and moves nothing else.
pub proof fn default_listing_is_visible_part(items: Seq<ScanItemView>)
    ensures
        listing(items, false) == listing(items, true).filter(visible()),
{
    gathered_visible(items);
    in_order_filter(gathered(items, true), visible());
}

/// Listing a directory again gives the same result where the filesystem
/// reports the same again: whatever two calls of `list` return on reports
/// that read the same is the same sequence of entries or the same failure.
pub proof fn list_is_repeatable(
    path: &str,
    exists: bool,
    is_dir: bool,
    scan: Result<Vec<ScanItem>, String>,
    again: Result<Vec<ScanItem>, String>,
    options: Option<ReadDirectoryOptions>,
    first: Result<Vec<FileEntry>, ListError>,
    second: Result<Vec<FileEntry>, ListError>,
)
    requires
        scan_view(again) == scan_view(scan),
        call_ensures(list, (path, exists, is_dir, scan, options), first),
        call_ensures(list, (path, exists, is_dir, again, options), second),
    ensures
        result_view(first) == result_view(second),
{
}

} // verus!
