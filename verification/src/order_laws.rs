//! What holds of every listing that is put in order, stated on the bytes of the paths and on the
//! entries that go in and come out.
use vstd::prelude::*;
use vstd::utf8::*;

use crate::git;
use crate::git::WorktreeEntry;
use crate::order;

verus! {

/// `a` comes first of two byte strings, or is the same: it is the start of `b`, or at the first
/// place where they differ its byte is the smaller one.
pub open spec fn first_or_same(a: Seq<u8>, b: Seq<u8>) -> bool {
    exists|k: int|
        0 <= k <= a.len() && k <= b.len() && #[trigger] a.take(k) == b.take(k) && (k == a.len()
            || (k < b.len() && a[k] < b[k]))
}

proof fn lemma_not_after_is_first_or_same(a: Seq<u8>, b: Seq<u8>)
    ensures
        order::not_after(a, b) <==> first_or_same(a, b),
    decreases a.len(),
{
    if a.len() == 0 {
        assert(a.take(0) =~= b.take(0));
        assert(first_or_same(a, b));
    } else if b.len() == 0 {
    } else if a.first() == b.first() {
        let x = a.drop_first();
        let y = b.drop_first();
        lemma_not_after_is_first_or_same(x, y);
        if first_or_same(x, y) {
            let k = choose|k: int|
                0 <= k <= x.len() && k <= y.len() && #[trigger] x.take(k) == y.take(k) && (k
                    == x.len() || (k < y.len() && x[k] < y[k]));
            assert(a.take(k + 1) =~= seq![a.first()] + x.take(k));
            assert(b.take(k + 1) =~= seq![b.first()] + y.take(k));
            assert(first_or_same(a, b));
        }
        if first_or_same(a, b) {
            let k = choose|k: int|
                0 <= k <= a.len() && k <= b.len() && #[trigger] a.take(k) == b.take(k) && (k
                    == a.len() || (k < b.len() && a[k] < b[k]));
            assert(k > 0);
            assert(x.take(k - 1) =~= a.take(k).drop_first());
            assert(y.take(k - 1) =~= b.take(k).drop_first());
            assert(first_or_same(x, y));
        }
    } else {
        assert(a.take(0) =~= b.take(0));
        if first_or_same(a, b) {
            let k = choose|k: int|
                0 <= k <= a.len() && k <= b.len() && #[trigger] a.take(k) == b.take(k) && (k
                    == a.len() || (k < b.len() && a[k] < b[k]));
            if k > 0 {
                assert(a.take(k)[0] == a[0]);
                assert(b.take(k)[0] == b[0]);
            }
        }
    }
}

/// Byte strings are compared as words in a dictionary are, byte by byte.
pub proof fn law_bytes_are_compared_from_the_left(a: &[u8], b: &[u8], r: bool)
    requires
        call_ensures(order::is_not_after, (a, b), r),
    ensures
        r <==> first_or_same(a@, b@),
{
    lemma_not_after_is_first_or_same(a@, b@);
}

/// What a `WorktreeEntry` says, field by field.
pub open spec fn said(e: WorktreeEntry) -> git::Entry {
    git::Entry { path: e.path@, ignored: e.ignored, is_dir: e.is_dir }
}

/// What each of `entries` says, field by field.
pub open spec fn all_said(entries: Seq<WorktreeEntry>) -> Seq<git::Entry> {
    entries.map_values(|e: WorktreeEntry| said(e))
}

/// Those of `entries` whose path is `path`, in the order in which they stand.
pub open spec fn with_path(entries: Seq<git::Entry>, path: Seq<char>) -> Seq<git::Entry> {
    entries.filter(|e: git::Entry| e.path == path)
}

/// Sorting keeps the entries that it is given, as often as they are there, puts them in the order
/// of the bytes of their paths, and leaves entries with the same path in the order in which they
/// came.
pub proof fn law_sorting_is_stable(entries: Vec<WorktreeEntry>, r: Vec<WorktreeEntry>)
    requires
        call_ensures(order::sort_by_path, (entries,), r),
    ensures
        all_said(r@).to_multiset() == all_said(entries@).to_multiset(),
        forall|i: int, j: int|
            0 <= i <= j < r@.len() ==> first_or_same(
                encode_utf8((#[trigger] r@[i]).path@),
                encode_utf8((#[trigger] r@[j]).path@),
            ),
        forall|path: Seq<char>| #[trigger]
            with_path(all_said(r@), path) == with_path(all_said(entries@), path),
{
    lemma_sorted(git::entries_of(entries@), r@);
    lemma_entries_said(entries@);
}

/// Field by field, entries say what their view says.
pub proof fn lemma_entries_said(entries: Seq<WorktreeEntry>)
    ensures
        all_said(entries) == git::entries_of(entries),
{
    assert(all_said(entries) =~= git::entries_of(entries));
}

/// What it is to be stably sorted, in terms of bytes.
pub proof fn lemma_sorted(before: Seq<git::Entry>, after: Seq<WorktreeEntry>)
    requires
        order::stably_sorted(before, git::entries_of(after)),
    ensures
        all_said(after).to_multiset() == before.to_multiset(),
        forall|i: int, j: int|
            0 <= i <= j < after.len() ==> first_or_same(
                encode_utf8((#[trigger] after[i]).path@),
                encode_utf8((#[trigger] after[j]).path@),
            ),
        forall|path: Seq<char>| #[trigger]
            with_path(all_said(after), path) == with_path(before, path),
{
    let view = git::entries_of(after);
    lemma_entries_said(after);
    assert forall|i: int, j: int| 0 <= i <= j < after.len() implies first_or_same(
        encode_utf8((#[trigger] after[i]).path@),
        encode_utf8((#[trigger] after[j]).path@),
    ) by {
        assert(view[i] == after[i]@);
        assert(view[j] == after[j]@);
        assert(order::listed_before(view[i], view[j]));
        lemma_not_after_is_first_or_same(encode_utf8(after[i].path@), encode_utf8(after[j].path@));
    }
    assert forall|path: Seq<char>| #[trigger]
        with_path(all_said(after), path) == with_path(before, path) by {
        let mine = |e: git::Entry| e.path == path;
        assert(order::at_path(view, path) == order::at_path(before, path));
        assert(with_path(view, path) == view.filter(mine));
        assert(with_path(before, path) == before.filter(mine));
        assert(order::at_path(view, path) == view.filter(mine));
        assert(order::at_path(before, path) == before.filter(mine));
    }
}

} // verus!
