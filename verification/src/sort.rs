//! Putting entries into listing order: a merge sort, proved to give the
//! order that `in_order` defines.

use vstd::prelude::*;
use crate::entry::{EntryView, FileEntry};
use crate::order::{
    entry_precedes, in_order, insert_last, precedes, precedes_total, precedes_transitive,
};

verus! {

/// Two ordered runs woven into one, read from their ends: the later of the
/// two last entries goes last, and on a tie that of `b`.
spec fn merged(a: Seq<EntryView>, b: Seq<EntryView>) -> Seq<EntryView>
    decreases a.len() + b.len(),
{
    if a.len() == 0 {
        b
    } else if b.len() == 0 {
        a
    } else if precedes(a.last(), b.last()) {
        merged(a, b.drop_last()).push(b.last())
    } else {
        merged(a.drop_last(), b).push(a.last())
    }
}

/// Weaving `a` with `b` after `y` was put into `b` is putting `y` into the
/// weave of `a` and `b`.
proof fn lemma_merged_insert(a: Seq<EntryView>, b: Seq<EntryView>, y: EntryView)
    ensures
        merged(a, insert_last(b, y)) == insert_last(merged(a, b), y),
    decreases a.len() + b.len(),
{
    let by = insert_last(b, y);
    if a.len() == 0 {
        assert(merged(a, by) == by);
        assert(merged(a, b) == b);
    } else if b.len() == 0 {
        assert(by.drop_last() =~= b);
        assert(by.last() == y);
        assert(merged(a, b) == a);
        if precedes(a.last(), y) {
            assert(merged(a, by) == merged(a, b).push(y));
        } else {
            lemma_merged_insert(a.drop_last(), b, y);
            assert(merged(a, by) == merged(a.drop_last(), by).push(a.last()));
            assert(merged(a.drop_last(), b) =~= a.drop_last());
        }
    } else if precedes(b.last(), y) {
        assert(by.drop_last() =~= b);
        assert(by.last() == y);
        if precedes(a.last(), y) {
            assert(merged(a, by) == merged(a, b).push(y));
            assert(merged(a, b).last() == a.last() || merged(a, b).last() == b.last());
        } else {
            if precedes(a.last(), b.last()) {
                precedes_transitive(a.last(), b.last(), y);
            }
            lemma_merged_insert(a.drop_last(), b, y);
            assert(merged(a, by) == merged(a.drop_last(), by).push(a.last()));
            assert(merged(a, b) == merged(a.drop_last(), b).push(a.last()));
            assert(merged(a, b).drop_last() =~= merged(a.drop_last(), b));
        }
    } else {
        assert(by.drop_last() =~= insert_last(b.drop_last(), y));
        assert(by.last() == b.last());
        if precedes(a.last(), b.last()) {
            lemma_merged_insert(a, b.drop_last(), y);
            assert(merged(a, by) == merged(a, by.drop_last()).push(b.last()));
            assert(merged(a, b) == merged(a, b.drop_last()).push(b.last()));
            assert(merged(a, b).drop_last() =~= merged(a, b.drop_last()));
        } else {
            if precedes(a.last(), y) {
                precedes_total(b.last(), y);
                precedes_transitive(a.last(), y, b.last());
            }
            lemma_merged_insert(a.drop_last(), b, y);
            assert(merged(a, by) == merged(a.drop_last(), by).push(a.last()));
            assert(merged(a, b) == merged(a.drop_last(), b).push(a.last()));
            assert(merged(a, b).drop_last() =~= merged(a.drop_last(), b));
        }
    }
}

/// Weaving the listing orders of two sequences gives the listing order of
/// the first followed by the second.
proof fn lemma_merged_in_order(a: Seq<EntryView>, b: Seq<EntryView>)
    ensures
        merged(in_order(a), in_order(b)) == in_order(a + b),
    decreases b.len(),
{
    if b.len() == 0 {
        assert(a + b =~= a);
        assert(merged(in_order(a), in_order(b)) =~= in_order(a));
    } else {
        assert((a + b).drop_last() =~= a + b.drop_last());
        lemma_merged_in_order(a, b.drop_last());
        lemma_merged_insert(in_order(a), in_order(b.drop_last()), b.last());
    }
}

/// Weaves two runs of entries into one.
fn merge(left: Vec<FileEntry>, right: Vec<FileEntry>) -> (woven: Vec<FileEntry>)
    ensures
        woven.deep_view() == merged(left.deep_view(), right.deep_view()),
{
    let ghost goal = merged(left.deep_view(), right.deep_view());
    let mut left = left;
    let mut right = right;
    // The end of the weave, last entry first.
    let mut tail: Vec<FileEntry> = Vec::new();
    proof {
        assert(tail.deep_view().reverse() =~= Seq::<EntryView>::empty());
        assert(goal + tail.deep_view().reverse() =~= goal);
    }
    while left.len() > 0 && right.len() > 0
        invariant
            goal == merged(left.deep_view(), right.deep_view()) + tail.deep_view().reverse(),
        decreases left.len() + right.len(),
    {
        let ghost l = left.deep_view();
        let ghost r = right.deep_view();
        let ghost t = tail.deep_view();
        let from_right = entry_precedes(&left[left.len() - 1], &right[right.len() - 1]);
        let next = if from_right {
            right.pop().unwrap()
        } else {
            left.pop().unwrap()
        };
        tail.push(next);
        proof {
            assert(tail.deep_view() =~= t.push(next@));
            assert(tail.deep_view().reverse() =~= seq![next@] + t.reverse());
            if from_right {
                assert(left.deep_view() =~= l);
                assert(right.deep_view() =~= r.drop_last());
                assert(next@ == r.last());
            } else {
                assert(right.deep_view() =~= r);
                assert(left.deep_view() =~= l.drop_last());
                assert(next@ == l.last());
            }
            assert(merged(l, r) == merged(left.deep_view(), right.deep_view()).push(next@));
            assert(merged(l, r) + t.reverse() =~= merged(left.deep_view(), right.deep_view())
                + tail.deep_view().reverse());
        }
    }
    let ghost l = left.deep_view();
    let ghost r = right.deep_view();
    left.append(&mut right);
    proof {
        assert(left.deep_view() =~= l + r);
        assert(merged(l, r) =~= l + r);
    }
    while tail.len() > 0
        invariant
            goal == left.deep_view() + tail.deep_view().reverse(),
        decreases tail.len(),
    {
        let ghost w = left.deep_view();
        let ghost t = tail.deep_view();
        let next = tail.pop().unwrap();
        left.push(next);
        proof {
            assert(tail.deep_view() =~= t.drop_last());
            assert(left.deep_view() =~= w.push(next@));
            assert(t.reverse() =~= seq![next@] + tail.deep_view().reverse());
            assert(w + t.reverse() =~= left.deep_view() + tail.deep_view().reverse());
        }
    }
    proof {
        assert(tail.deep_view().reverse() =~= Seq::<EntryView>::empty());
        assert(left.deep_view() + tail.deep_view().reverse() =~= left.deep_view());
    }
    left
}

/// Puts entries into listing order: directories first, each group by folded
/// name, entries that tie in the order they came in.
pub fn sort_entries(entries: Vec<FileEntry>) -> (sorted: Vec<FileEntry>)
    ensures
        sorted.deep_view() == in_order(entries.deep_view()),
    decreases entries.len(),
{
    let ghost all = entries.deep_view();
    let mut left = entries;
    if left.len() < 2 {
        proof {
            if all.len() == 1 {
                assert(in_order(all.drop_last()) =~= Seq::<EntryView>::empty());
                assert(in_order(all) =~= all);
            }
        }
        return left;
    }
    let half = left.len() / 2;
    let right = left.split_off(half);
    proof {
        assert(all =~= left.deep_view() + right.deep_view());
        lemma_merged_in_order(left.deep_view(), right.deep_view());
    }
    let left = sort_entries(left);
    let right = sort_entries(right);
    merge(left, right)
}

} // verus!
