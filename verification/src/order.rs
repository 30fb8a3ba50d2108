//! The order of a listing: directories before files, each group by folded
//! name, and entries that the order cannot tell apart as the scan met them.

use vstd::prelude::*;
use crate::entry::{EntryView, FileEntry};
use crate::text::{
    lowercase_of, str_le, text_le, text_le_antisymmetric, text_le_total, text_le_transitive,
    to_lowercase,
};

verus! {

/// Whether an entry with the first kind and folded name may stand before one
/// with the second: a directory before a file, otherwise by folded name.
pub open spec fn ranks_before(
    a_is_dir: bool,
    a_folded: Seq<char>,
    b_is_dir: bool,
    b_folded: Seq<char>,
) -> bool {
    if a_is_dir != b_is_dir {
        a_is_dir
    } else {
        text_le(a_folded, b_folded)
    }
}

/// Whether `a` may stand before `b` in a listing.
pub open spec fn precedes(a: EntryView, b: EntryView) -> bool {
    ranks_before(a.is_dir, lowercase_of(a.name), b.is_dir, lowercase_of(b.name))
}

/// Whether the order cannot tell `a` and `b` apart: same kind, same folded
/// name.
pub open spec fn ties(a: EntryView, b: EntryView) -> bool {
    precedes(a, b) && precedes(b, a)
}

/// Every entry may stand before every later one.
pub open spec fn ordered(s: Seq<EntryView>) -> bool {
    forall|i: int, j: int| #![trigger s[i], s[j]] 0 <= i < j < s.len() ==> precedes(s[i], s[j])
}

/// `sorted` with `e` put behind its last entry that may stand before `e`.
pub open spec fn insert_last(sorted: Seq<EntryView>, e: EntryView) -> Seq<EntryView>
    decreases sorted.len(),
{
    if sorted.len() == 0 {
        seq![e]
    } else if precedes(sorted.last(), e) {
        sorted.push(e)
    } else {
        insert_last(sorted.drop_last(), e).push(sorted.last())
    }
}

/// The entries of `s` in listing order: each entry in turn is put behind
/// those before it that may stand before it, so that entries which tie keep
/// the order they had in `s`.
pub open spec fn in_order(s: Seq<EntryView>) -> Seq<EntryView>
    decreases s.len(),
{
    if s.len() == 0 {
        s
    } else {
        insert_last(in_order(s.drop_last()), s.last())
    }
}

/// No file stands before a directory.
pub open spec fn directories_first(s: Seq<EntryView>) -> bool {
    forall|i: int, j: int|
        #![trigger s[i], s[j]]
        0 <= i < j < s.len() && s[j].is_dir ==> s[i].is_dir
}

/// Among directories, and among files, folded names never descend.
pub open spec fn names_ascend(s: Seq<EntryView>) -> bool {
    forall|i: int, j: int|
        #![trigger s[i], s[j]]
        0 <= i < j < s.len() && s[i].is_dir == s[j].is_dir ==> text_le(
            lowercase_of(s[i].name),
            lowercase_of(s[j].name),
        )
}

/// How many entries of `s` are directories.
pub open spec fn directory_count(s: Seq<EntryView>) -> nat
    decreases s.len(),
{
    if s.len() == 0 {
        0
    } else if s.last().is_dir {
        directory_count(s.drop_last()) + 1
    } else {
        directory_count(s.drop_last())
    }
}

/// The entries that tie with `z`, as a predicate.
pub open spec fn tied_with(z: EntryView) -> spec_fn(EntryView) -> bool {
    |e: EntryView| ties(e, z)
}

/// Of any two entries, one may stand before the other.
pub proof fn precedes_total(a: EntryView, b: EntryView)
    ensures
        precedes(a, b) || precedes(b, a),
{
    text_le_total(lowercase_of(a.name), lowercase_of(b.name));
}

/// If `a` may stand before `b` and `b` before `c`, then `a` may stand before
/// `c`.
pub proof fn precedes_transitive(a: EntryView, b: EntryView, c: EntryView)
    requires
        precedes(a, b),
        precedes(b, c),
    ensures
        precedes(a, c),
{
    if a.is_dir == b.is_dir && b.is_dir == c.is_dir {
        text_le_transitive(lowercase_of(a.name), lowercase_of(b.name), lowercase_of(c.name));
    }
}

/// Two entries tie exactly when they are of one kind and fold to one name.
pub proof fn ties_share_kind_and_folded_name(a: EntryView, b: EntryView)
    ensures
        ties(a, b) <==> a.is_dir == b.is_dir && lowercase_of(a.name) == lowercase_of(b.name),
{
    if ties(a, b) {
        text_le_antisymmetric(lowercase_of(a.name), lowercase_of(b.name));
    }
    text_le_total(lowercase_of(a.name), lowercase_of(a.name));
}

/// Decides the order of two entries from their kinds and folded names.
pub fn folded_precedes(
    a_is_dir: bool,
    a_folded: &str,
    b_is_dir: bool,
    b_folded: &str,
) -> (before: bool)
    ensures
        before == ranks_before(a_is_dir, a_folded@, b_is_dir, b_folded@),
{
    if a_is_dir != b_is_dir {
        a_is_dir
    } else {
        str_le(a_folded, b_folded)
    }
}

/// Decides whether `a` may stand before `b` in a listing.
pub fn entry_precedes(a: &FileEntry, b: &FileEntry) -> (before: bool)
    ensures
        before == precedes(a@, b@),
{
    if a.is_dir != b.is_dir {
        a.is_dir
    } else {
        let a_folded = to_lowercase(a.name.as_str());
        let b_folded = to_lowercase(b.name.as_str());
        folded_precedes(a.is_dir, a_folded.as_str(), b.is_dir, b_folded.as_str())
    }
}

proof fn lemma_insert_len(t: Seq<EntryView>, x: EntryView)
    ensures
        insert_last(t, x).len() == t.len() + 1,
    decreases t.len(),
{
    if t.len() > 0 && !precedes(t.last(), x) {
        lemma_insert_len(t.drop_last(), x);
    }
}

/// Whatever may stand behind `x` and behind every entry of `t` may stand
/// behind every entry of `t` with `x` put in.
proof fn lemma_insert_bounded(t: Seq<EntryView>, x: EntryView, z: EntryView)
    requires
        forall|i: int| 0 <= i < t.len() ==> precedes(t[i], z),
        precedes(x, z),
    ensures
        forall|k: int| 0 <= k < insert_last(t, x).len() ==> precedes(insert_last(t, x)[k], z),
    decreases t.len(),
{
    let r = insert_last(t, x);
    if t.len() > 0 && !precedes(t.last(), x) {
        let rest = t.drop_last();
        lemma_insert_bounded(rest, x, z);
        lemma_insert_len(rest, x);
        assert forall|k: int| 0 <= k < r.len() implies precedes(r[k], z) by {
            if k < r.len() - 1 {
                assert(r[k] == insert_last(rest, x)[k]);
            } else {
                assert(r[k] == t[t.len() - 1]);
            }
        }
    }
}

proof fn lemma_insert_ordered(t: Seq<EntryView>, x: EntryView)
    requires
        ordered(t),
    ensures
        ordered(insert_last(t, x)),
    decreases t.len(),
{
    let r = insert_last(t, x);
    if t.len() == 0 {
    } else if precedes(t.last(), x) {
        assert forall|i: int, j: int| 0 <= i < j < r.len() implies precedes(r[i], r[j]) by {
            if j == t.len() && i < t.len() - 1 {
                precedes_transitive(t[i], t.last(), x);
            }
        }
    } else {
        let rest = t.drop_last();
        lemma_insert_ordered(rest, x);
        precedes_total(x, t.last());
        lemma_insert_bounded(rest, x, t.last());
        lemma_insert_len(rest, x);
    }
}

proof fn lemma_insert_multiset(t: Seq<EntryView>, x: EntryView)
    ensures
        insert_last(t, x).to_multiset() == t.to_multiset().insert(x),
    decreases t.len(),
{
    broadcast use vstd::seq_lib::to_multiset_build;

    if t.len() == 0 {
        assert(seq![x] =~= t.push(x));
    } else if precedes(t.last(), x) {
    } else {
        let rest = t.drop_last();
        lemma_insert_multiset(rest, x);
        assert(t =~= rest.push(t.last()));
        assert(rest.to_multiset().insert(x).insert(t.last()) =~= rest.to_multiset().insert(
            t.last(),
        ).insert(x));
    }
}

proof fn lemma_insert_keeps_ties(t: Seq<EntryView>, x: EntryView, z: EntryView)
    ensures
        insert_last(t, x).filter(tied_with(z)) == t.push(x).filter(tied_with(z)),
    decreases t.len(),
{
    reveal(Seq::filter);
    let p = tied_with(z);
    if t.len() == 0 {
        assert(seq![x] =~= t.push(x));
    } else if precedes(t.last(), x) {
    } else {
        let rest = t.drop_last();
        lemma_insert_keeps_ties(rest, x, z);
        let r = insert_last(rest, x).push(t.last());
        assert(r.drop_last() =~= insert_last(rest, x));
        assert(rest.push(x).drop_last() =~= rest);
        assert(t.push(x).drop_last() =~= t);
        if p(x) && p(t.last()) {
            precedes_transitive(t.last(), z, x);
        }
        let kept = rest.filter(p);
        assert(t.filter(p) == if p(t.last()) { kept.push(t.last()) } else { kept });
        assert(rest.push(x).filter(p) == if p(x) { kept.push(x) } else { kept });
        assert(r.filter(p) == if p(t.last()) {
            rest.push(x).filter(p).push(t.last())
        } else {
            rest.push(x).filter(p)
        });
        assert(t.push(x).filter(p) == if p(x) { t.filter(p).push(x) } else { t.filter(p) });
    }
}

proof fn lemma_insert_directory_count(t: Seq<EntryView>, x: EntryView)
    ensures
        directory_count(insert_last(t, x)) == directory_count(t.push(x)),
    decreases t.len(),
{
    if t.len() == 0 {
        assert(seq![x] =~= t.push(x));
    } else if precedes(t.last(), x) {
    } else {
        let rest = t.drop_last();
        lemma_insert_directory_count(rest, x);
        let r = insert_last(rest, x).push(t.last());
        assert(r.drop_last() =~= insert_last(rest, x));
        assert(rest.push(x).drop_last() =~= rest);
        assert(t.push(x).drop_last() =~= t);
        let dirs = directory_count(rest);
        assert(directory_count(rest.push(x)) == if x.is_dir { dirs + 1 } else { dirs });
        assert(directory_count(t) == if t.last().is_dir { dirs + 1 } else { dirs });
        assert(directory_count(t.push(x)) == if x.is_dir {
            directory_count(t) + 1
        } else {
            directory_count(t)
        });
        assert(directory_count(r) == if t.last().is_dir {
            directory_count(rest.push(x)) + 1
        } else {
            directory_count(rest.push(x))
        });
    }
}

proof fn lemma_directory_count_bound(s: Seq<EntryView>)
    ensures
        directory_count(s) <= s.len(),
        (forall|i: int| 0 <= i < s.len() ==> s[i].is_dir) ==> directory_count(s) == s.len(),
    decreases s.len(),
{
    if s.len() > 0 {
        lemma_directory_count_bound(s.drop_last());
    }
}

/// Where no file stands before a directory, the directories are exactly the
/// first `directory_count` entries.
pub proof fn directories_first_splits(s: Seq<EntryView>)
    requires
        directories_first(s),
    ensures
        directory_count(s) <= s.len(),
        forall|i: int| 0 <= i < s.len() ==> (s[i].is_dir <==> i < directory_count(s)),
    decreases s.len(),
{
    lemma_directory_count_bound(s);
    if s.len() > 0 {
        let rest = s.drop_last();
        lemma_directory_count_bound(rest);
        if s.last().is_dir {
            assert forall|i: int| 0 <= i < s.len() implies s[i].is_dir by {
                if i < s.len() - 1 {
                    assert(s[s.len() - 1].is_dir ==> s[i].is_dir);
                }
            }
        } else {
            assert forall|i: int, j: int| 0 <= i < j < rest.len() && rest[j].is_dir implies rest[
                i
            ].is_dir by {
                assert(s[j].is_dir ==> s[i].is_dir);
            }
            directories_first_splits(rest);
            assert forall|i: int| 0 <= i < s.len() implies (s[i].is_dir <==> i < directory_count(
                s,
            )) by {
                if i < s.len() - 1 {
                    assert(s[i] == rest[i]);
                }
            }
        }
    }
}

/// A listing order has as many entries as were put in.
pub proof fn in_order_len(s: Seq<EntryView>)
    ensures
        in_order(s).len() == s.len(),
    decreases s.len(),
{
    if s.len() > 0 {
        in_order_len(s.drop_last());
        lemma_insert_len(in_order(s.drop_last()), s.last());
    }
}

/// In a listing order every entry may stand before every later one.
pub proof fn in_order_is_ordered(s: Seq<EntryView>)
    ensures
        ordered(in_order(s)),
    decreases s.len(),
{
    if s.len() > 0 {
        in_order_is_ordered(s.drop_last());
        lemma_insert_ordered(in_order(s.drop_last()), s.last());
    }
}

/// A listing order holds exactly the entries that were put in, each as often
/// as it was put in.
pub proof fn in_order_is_permutation(s: Seq<EntryView>)
    ensures
        in_order(s).to_multiset() == s.to_multiset(),
    decreases s.len(),
{
    broadcast use vstd::seq_lib::to_multiset_build;

    if s.len() > 0 {
        in_order_is_permutation(s.drop_last());
        lemma_insert_multiset(in_order(s.drop_last()), s.last());
        assert(s =~= s.drop_last().push(s.last()));
    }
}

/// Entries that tie stand in a listing order as they stood before: the
/// entries that tie with any `z` are the same sequence before and after.
pub proof fn in_order_keeps_ties(s: Seq<EntryView>, z: EntryView)
    ensures
        in_order(s).filter(tied_with(z)) == s.filter(tied_with(z)),
    decreases s.len(),
{
    reveal(Seq::filter);
    if s.len() > 0 {
        let rest = s.drop_last();
        in_order_keeps_ties(rest, z);
        lemma_insert_keeps_ties(in_order(rest), s.last(), z);
        assert(in_order(rest).push(s.last()).drop_last() =~= in_order(rest));
    }
}

/// Entries already in order stay as they are.
pub proof fn in_order_of_ordered(s: Seq<EntryView>)
    requires
        ordered(s),
    ensures
        in_order(s) == s,
    decreases s.len(),
{
    if s.len() > 0 {
        let rest = s.drop_last();
        in_order_of_ordered(rest);
        assert(s =~= rest.push(s.last()));
        if rest.len() == 0 {
            assert(seq![s.last()] =~= s);
        }
    }
}

/// Ordering a second time changes nothing.
pub proof fn in_order_idempotent(s: Seq<EntryView>)
    ensures
        in_order(in_order(s)) == in_order(s),
{
    in_order_is_ordered(s);
    in_order_of_ordered(in_order(s));
}

/// In a listing order the directories come first, and among the directories
/// and among the files folded names never descend.
pub proof fn in_order_groups(s: Seq<EntryView>)
    ensures
        directories_first(in_order(s)),
        names_ascend(in_order(s)),
{
    in_order_is_ordered(s);
}

/// A listing order is a run of directories followed by a run of files: with
/// `k` directories put in, exactly its first `k` entries are directories.
pub proof fn in_order_splits(s: Seq<EntryView>)
    ensures
        directory_count(in_order(s)) == directory_count(s),
        forall|i: int|
            0 <= i < in_order(s).len() ==> (in_order(s)[i].is_dir <==> i < directory_count(s)),
    decreases s.len(),
{
    lemma_in_order_directory_count(s);
    in_order_groups(s);
    directories_first_splits(in_order(s));
}

proof fn lemma_in_order_directory_count(s: Seq<EntryView>)
    ensures
        directory_count(in_order(s)) == directory_count(s),
    decreases s.len(),
{
    if s.len() > 0 {
        let rest = s.drop_last();
        lemma_in_order_directory_count(rest);
        lemma_insert_directory_count(in_order(rest), s.last());
        assert(in_order(rest).push(s.last()).drop_last() =~= in_order(rest));
    }
}

proof fn lemma_insert_filter(t: Seq<EntryView>, y: EntryView, p: spec_fn(EntryView) -> bool)
    requires
        ordered(t),
    ensures
        insert_last(t, y).filter(p) == if p(y) {
            insert_last(t.filter(p), y)
        } else {
            t.filter(p)
        },
    decreases t.len(),
{
    reveal(Seq::filter);
    let f = t.filter(p);
    if t.len() == 0 {
        assert(seq![y].drop_last() =~= t);
    } else if precedes(t.last(), y) {
        assert(t.push(y).drop_last() =~= t);
        if p(y) && f.len() > 0 {
            assert(f.contains(f.last()));
            t.lemma_filter_contains_rev(p, f.last());
            let m = choose|m: int| 0 <= m < t.len() && t[m] == f.last();
            if m < t.len() - 1 {
                precedes_transitive(t[m], t.last(), y);
            }
        }
    } else {
        let rest = t.drop_last();
        lemma_insert_filter(rest, y, p);
        let r = insert_last(rest, y).push(t.last());
        assert(r.drop_last() =~= insert_last(rest, y));
        if p(t.last()) {
            assert(rest.filter(p).push(t.last()).drop_last() =~= rest.filter(p));
        }
    }
}

/// Ordering and leaving entries out can be done in either order: the
/// listing order of the entries that meet `p` is the listing order of all of
/// them with those left out that do not meet it.
pub proof fn in_order_filter(s: Seq<EntryView>, p: spec_fn(EntryView) -> bool)
    ensures
        in_order(s.filter(p)) == in_order(s).filter(p),
    decreases s.len(),
{
    reveal(Seq::filter);
    if s.len() > 0 {
        let rest = s.drop_last();
        in_order_filter(rest, p);
        in_order_is_ordered(rest);
        lemma_insert_filter(in_order(rest), s.last(), p);
        if p(s.last()) {
            assert(rest.filter(p).push(s.last()).drop_last() =~= rest.filter(p));
        }
    }
}

/// Every entry of `r` may stand before the last one.
proof fn lemma_last_is_greatest(r: Seq<EntryView>, i: int)
    requires
        ordered(r),
        0 <= i < r.len(),
    ensures
        precedes(r[i], r.last()),
{
    if i == r.len() - 1 {
        precedes_total(r[i], r[i]);
    }
}

/// Two ordered sequences that hold the same entries of every group of ties,
/// in the same order, are the same sequence.
pub proof fn ordered_is_unique(r1: Seq<EntryView>, r2: Seq<EntryView>)
    requires
        ordered(r1),
        ordered(r2),
        forall|z: EntryView| #[trigger] r1.filter(tied_with(z)) == r2.filter(tied_with(z)),
    ensures
        r1 == r2,
    decreases r1.len(),
{
    reveal(Seq::filter);
    if r1.len() == 0 {
        if r2.len() > 0 {
            let y = r2.last();
            precedes_total(y, y);
            assert(r1.filter(tied_with(y)) == r2.filter(tied_with(y)));
        }
        assert(r1 =~= r2);
    } else {
        let x = r1.last();
        precedes_total(x, x);
        assert(r1.filter(tied_with(x)) == r2.filter(tied_with(x)));
        assert(r1.filter(tied_with(x)).last() == x);
        assert(r2.len() > 0);
        let y = r2.last();
        precedes_total(y, y);
        if !ties(y, x) {
            // Some entry of `r1` ties with `y`, so `y` may stand before `x`.
            let in_r1 = r1.filter(tied_with(y));
            assert(in_r1 == r2.filter(tied_with(y)));
            assert(in_r1.last() == y);
            assert(in_r1.contains(y));
            r1.lemma_filter_contains_rev(tied_with(y), y);
            let i = choose|i: int| 0 <= i < r1.len() && r1[i] == y;
            lemma_last_is_greatest(r1, i);
            // And `x` is an entry of `r2`, so it may stand before `y`.
            let in_r2 = r2.filter(tied_with(x));
            assert(in_r2.contains(x));
            r2.lemma_filter_contains_rev(tied_with(x), x);
            let j = choose|j: int| 0 <= j < r2.len() && r2[j] == x;
            lemma_last_is_greatest(r2, j);
        }
        assert(y == x);
        let rest1 = r1.drop_last();
        let rest2 = r2.drop_last();
        assert forall|z: EntryView| #[trigger]
            rest1.filter(tied_with(z)) == rest2.filter(tied_with(z)) by {
            assert(r1.filter(tied_with(z)) == r2.filter(tied_with(z)));
            if ties(x, z) {
                assert(rest1.filter(tied_with(z)) =~= r1.filter(tied_with(z)).drop_last());
                assert(rest2.filter(tied_with(z)) =~= r2.filter(tied_with(z)).drop_last());
            }
        }
        ordered_is_unique(rest1, rest2);
        assert(r1 =~= rest1.push(x));
        assert(r2 =~= rest2.push(x));
    }
}

/// The listing order is the one way to put entries in order that leaves
/// every group of ties as it stood: any ordered sequence that holds, for
/// every group of ties, the entries of `s` in the order of `s`, is
/// `in_order(s)`.
pub proof fn in_order_is_the_stable_order(s: Seq<EntryView>, r: Seq<EntryView>)
    requires
        ordered(r),
        forall|z: EntryView| #[trigger] r.filter(tied_with(z)) == s.filter(tied_with(z)),
    ensures
        r == in_order(s),
{
    in_order_is_ordered(s);
    assert forall|z: EntryView| #[trigger]
        r.filter(tied_with(z)) == in_order(s).filter(tied_with(z)) by {
        in_order_keeps_ties(s, z);
        assert(r.filter(tied_with(z)) == s.filter(tied_with(z)));
    }
    ordered_is_unique(r, in_order(s));
}

/// The order in which entries are put in bears on their listing order only
/// within a group of ties: two sequences that hold every group of ties in
/// the same order have the same listing order.
pub proof fn in_order_depends_on_ties_only(s1: Seq<EntryView>, s2: Seq<EntryView>)
    requires
        forall|z: EntryView| #[trigger] s1.filter(tied_with(z)) == s2.filter(tied_with(z)),
    ensures
        in_order(s1) == in_order(s2),
{
    in_order_is_ordered(s1);
    assert forall|z: EntryView| #[trigger]
        in_order(s1).filter(tied_with(z)) == s2.filter(tied_with(z)) by {
        in_order_keeps_ties(s1, z);
        assert(s1.filter(tied_with(z)) == s2.filter(tied_with(z)));
    }
    in_order_is_the_stable_order(s2, in_order(s1));
}

} // verus!
