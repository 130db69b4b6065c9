//! What holds of every listing.
use vstd::prelude::*;
use vstd::seq_lib::*;

use crate::git;
use crate::order;
use crate::path;
use crate::path_laws;
use crate::walk;
use crate::walk::{Child, Listing, Visit};

verus! {

/// What mapping and filtering leaves is no longer than what went in.
proof fn lemma_filter_map_len<A, B>(s: Seq<A>, f: spec_fn(A) -> Option<B>)
    ensures
        s.filter_map(f).len() <= s.len(),
    decreases s.len(),
{
    if s.len() > 0 {
        lemma_filter_map_len(s.drop_last(), f);
    }
}

/// What an element maps to is there.
pub proof fn lemma_filter_map_keeps<A, B>(s: Seq<A>, f: spec_fn(A) -> Option<B>, i: int)
    requires
        0 <= i < s.len(),
        f(s[i]) is Some,
    ensures
        s.filter_map(f).contains(f(s[i])->0),
    decreases s.len(),
{
    let out = s.filter_map(f);
    let front = s.drop_last();
    if i == s.len() - 1 {
        assert(out.last() == f(s[i])->0);
    } else {
        assert(front[i] == s[i]);
        lemma_filter_map_keeps(front, f, i);
        let k = choose|k: int|
            0 <= k < front.filter_map(f).len() && front.filter_map(f)[k] == f(s[i])->0;
        assert(out[k] == f(s[i])->0);
    }
}

/// What is there came of an element.
proof fn lemma_filter_map_source<A, B>(s: Seq<A>, f: spec_fn(A) -> Option<B>, k: int) -> (i: int)
    requires
        0 <= k < s.filter_map(f).len(),
    ensures
        0 <= i < s.len(),
        f(s[i]) == Some(s.filter_map(f)[k]),
    decreases s.len(),
{
    let front = s.drop_last();
    if f(s.last()) is Some && k == s.filter_map(f).len() - 1 {
        s.len() - 1
    } else {
        let i = lemma_filter_map_source(front, f, k);
        assert(front[i] == s[i]);
        i
    }
}

/// No two of `entries` have the same path.
pub open spec fn no_path_twice(entries: Seq<git::Entry>) -> bool {
    forall|i: int, j: int|
        0 <= i < j < entries.len() ==> (#[trigger] entries[i]).path != (#[trigger] entries[j]).path
}

/// The entries of a listing are those that the budget covers.
pub proof fn lemma_listing_members(
    listing: Listing,
    root: Seq<u8>,
    visits: Seq<Visit>,
    children: Seq<Child>,
    cap: nat,
)
    requires
        walk::is_listing(listing, root, visits, children, cap),
    ensures
        listing.entries@.len() == walk::listed(root, visits, children, cap).len(),
        forall|e: git::Entry| #[trigger]
            git::entries_of(listing.entries@).contains(e) == walk::listed(
                root,
                visits,
                children,
                cap,
            ).contains(e),
{
    let all = walk::listed(root, visits, children, cap);
    let shown = git::entries_of(listing.entries@);
    to_multiset_len(all);
    to_multiset_len(shown);
    assert forall|e: git::Entry| #[trigger] shown.contains(e) == all.contains(e) by {
        to_multiset_contains(all, e);
        to_multiset_contains(shown, e);
    }
}

/// Every entry of a listing is a file of the walk or a placeholder.
proof fn lemma_listed_splits(
    root: Seq<u8>,
    visits: Seq<Visit>,
    children: Seq<Child>,
    cap: nat,
    e: git::Entry,
)
    requires
        walk::listed(root, visits, children, cap).contains(e),
    ensures
        walk::walked_files(root, walk::covered(visits, cap)).contains(e) || walk::hidden(
            root,
            visits,
            children,
            cap,
        ).contains(e),
{
    let files = walk::walked_files(root, walk::covered(visits, cap));
    let hidden = walk::hidden(root, visits, children, cap);
    let all = walk::listed(root, visits, children, cap);
    let i = choose|i: int| 0 <= i < all.len() && all[i] == e;
    if i < files.len() {
        assert(files[i] == e);
    } else {
        assert(hidden[i - files.len()] == e);
    }
}

/// A listing holds no more entries than the budget: directories that are walked spend it too, and
/// so do placeholders.
pub proof fn law_a_listing_stays_within_its_budget(
    listing: Listing,
    root: Seq<u8>,
    visits: Seq<Visit>,
    children: Seq<Child>,
    cap: nat,
)
    requires
        walk::is_listing(listing, root, visits, children, cap),
    ensures
        listing.entries@.len() <= cap,
{
    lemma_listing_members(listing, root, visits, children, cap);
    let seen = walk::covered(visits, cap);
    lemma_filter_map_len(seen, |v: Visit| walk::file_at(root, v));
}

/// A walk that the budget cut short is reported and invents no ignored entries.
pub proof fn law_a_capped_walk_invents_no_ignores(
    listing: Listing,
    root: Seq<u8>,
    visits: Seq<Visit>,
    children: Seq<Child>,
    cap: nat,
)
    requires
        walk::is_listing(listing, root, visits, children, cap),
        walk::overrun(visits, cap),
    ensures
        listing.capped,
        forall|i: int|
            0 <= i < listing.entries@.len() ==> !(#[trigger] listing.entries@[i]).ignored,
{
    lemma_listing_members(listing, root, visits, children, cap);
    let shown = git::entries_of(listing.entries@);
    let seen = walk::covered(visits, cap);
    let f = |v: Visit| walk::file_at(root, v);
    assert forall|i: int| 0 <= i < listing.entries@.len() implies !(
    #[trigger] listing.entries@[i]).ignored by {
        let e = shown[i];
        assert(e == listing.entries@[i]@);
        assert(shown.contains(e));
        lemma_listed_splits(root, visits, children, cap, e);
        let files = walk::walked_files(root, seen);
        let k = choose|k: int| 0 <= k < files.len() && files[k] == e;
        let _ = lemma_filter_map_source(seen, f, k);
    }
}

/// A listing says that it was cut short exactly where what there was to list, placeholders
/// included, is more than the budget: one that fits exactly is whole.
pub proof fn law_a_listing_that_fits_is_whole(
    listing: Listing,
    root: Seq<u8>,
    visits: Seq<Visit>,
    children: Seq<Child>,
    cap: nat,
)
    requires
        walk::is_listing(listing, root, visits, children, cap),
    ensures
        listing.capped <==> walk::counted(visits).len() + walk::placeholders(
            root,
            walk::walked_paths(walk::counted(visits)),
            children,
        ).len() > cap,
{
}

/// A listing that was not cut short holds every file that was walked and can be written as text.
pub proof fn law_a_whole_listing_holds_every_file(
    listing: Listing,
    root: Seq<u8>,
    visits: Seq<Visit>,
    children: Seq<Child>,
    cap: nat,
    i: int,
)
    requires
        walk::is_listing(listing, root, visits, children, cap),
        !listing.capped,
        0 <= i < visits.len(),
        walk::counts(visits[i]),
        walk::file_at(root, visits[i]) is Some,
    ensures
        git::entries_of(listing.entries@).contains(walk::file_at(root, visits[i])->0),
{
    lemma_listing_members(listing, root, visits, children, cap);
    let seen = walk::covered(visits, cap);
    let f = |v: Visit| walk::file_at(root, v);
    visits.lemma_filter_contains(|v: Visit| walk::counts(v), i);
    assert(seen.contains(visits[i]));
    let k = choose|k: int| 0 <= k < seen.len() && seen[k] == visits[i];
    lemma_filter_map_keeps(seen, f, k);
    let files = walk::walked_files(root, seen);
    let e = walk::file_at(root, visits[i])->0;
    assert(files.contains(e));
    let m = choose|m: int| 0 <= m < files.len() && files[m] == e;
    assert(walk::listed(root, visits, children, cap)[m] == e);
}

/// A listing that was not cut short holds every child that the ignore rules hide: that the walk
/// did not come upon, that is not `.git`, and that is not an empty directory.
pub proof fn law_a_whole_listing_holds_every_ignored_child(
    listing: Listing,
    root: Seq<u8>,
    visits: Seq<Visit>,
    children: Seq<Child>,
    cap: nat,
    i: int,
)
    requires
        walk::is_listing(listing, root, visits, children, cap),
        !listing.capped,
        0 <= i < children.len(),
        walk::placeholder_at(
            root,
            walk::walked_paths(walk::counted(visits)),
            children[i],
        ) is Some,
    ensures
        git::entries_of(listing.entries@).contains(
            walk::placeholder_at(
                root,
                walk::walked_paths(walk::counted(visits)),
                children[i],
            )->0,
        ),
{
    lemma_listing_members(listing, root, visits, children, cap);
    let walked = walk::walked_paths(walk::counted(visits));
    let f = |c: Child| walk::placeholder_at(root, walked, c);
    lemma_filter_map_keeps(children, f, i);
    let hidden = walk::hidden(root, visits, children, cap);
    let e = walk::placeholder_at(root, walked, children[i])->0;
    assert(hidden.contains(e));
    let m = choose|m: int| 0 <= m < hidden.len() && hidden[m] == e;
    let files = walk::walked_files(root, walk::covered(visits, cap));
    assert(walk::listed(root, visits, children, cap)[files.len() + m] == e);
}

/// Where an entry comes from: one that is not ignored is a file that the walk came upon, and one
/// that is ignored is a child that the walk did not come upon, `.git` and empty directories
/// aside. So nothing but an ignored directory is listed as a directory.
pub proof fn law_every_entry_was_found(
    listing: Listing,
    root: Seq<u8>,
    visits: Seq<Visit>,
    children: Seq<Child>,
    cap: nat,
    i: int,
)
    requires
        walk::is_listing(listing, root, visits, children, cap),
        0 <= i < listing.entries@.len(),
    ensures
        !listing.entries@[i].ignored ==> !listing.entries@[i].is_dir && exists|k: int|
            0 <= k < visits.len() && walk::counts(#[trigger] visits[k]) && walk::file_at(
                root,
                visits[k],
            ) == Some(listing.entries@[i]@),
        listing.entries@[i].ignored ==> exists|k: int|
            0 <= k < children.len() && walk::placeholder_at(
                root,
                walk::walked_paths(walk::counted(visits)),
                #[trigger] children[k],
            ) == Some(listing.entries@[i]@),
{
    lemma_entry_source(listing, root, visits, children, cap, i);
    let seen = walk::covered(visits, cap);
    if !listing.entries@[i].ignored {
        let n = choose|n: int|
            0 <= n < seen.len() && walk::file_at(root, #[trigger] seen[n]) == Some(
                listing.entries@[i]@,
            );
        let k = lemma_covered_source(visits, cap, n);
        assert(walk::counts(visits[k]));
    } else {
        lemma_ignored_means_whole_walk(listing, root, visits, children, cap, i);
    }
}

/// A visit that the budget covers is one that counts.
pub proof fn lemma_covered_source(visits: Seq<Visit>, cap: nat, n: int) -> (k: int)
    requires
        0 <= n < walk::covered(visits, cap).len(),
    ensures
        0 <= k < visits.len(),
        walk::counts(visits[k]),
        visits[k] == walk::covered(visits, cap)[n],
{
    let counted = walk::counted(visits);
    assert(walk::covered(visits, cap)[n] == counted[n]);
    visits.lemma_filter_pred(|v: Visit| walk::counts(v), n);
    assert(counted.contains(counted[n]));
    visits.lemma_filter_contains_rev(|v: Visit| walk::counts(v), counted[n]);
    choose|k: int| 0 <= k < visits.len() && visits[k] == counted[n]
}

/// Where something ignored is listed, the budget covered the walk.
proof fn lemma_ignored_means_whole_walk(
    listing: Listing,
    root: Seq<u8>,
    visits: Seq<Visit>,
    children: Seq<Child>,
    cap: nat,
    i: int,
)
    requires
        walk::is_listing(listing, root, visits, children, cap),
        0 <= i < listing.entries@.len(),
        listing.entries@[i].ignored,
    ensures
        walk::covered(visits, cap) == walk::counted(visits),
{
    if walk::overrun(visits, cap) {
        law_a_capped_walk_invents_no_ignores(listing, root, visits, children, cap);
    }
}

/// No component of `path` below `root` is `.git`.
pub open spec fn clear_of_git(root: Seq<u8>, path: Seq<u8>) -> bool {
    !path::rest_below(root, path).contains(walk::git_dir())
}

/// `child` lies in one of the directories that were walked, under its name.
pub open spec fn lies_in(child: Child, dirs: Seq<Seq<u8>>) -> bool {
    child matches Child::Entry { name, path, .. } ==> exists|d: int|
        0 <= d < dirs.len() && path::components(path@) == path::components(
            #[trigger] dirs[d],
        ).push(name@)
}

/// `.git` is never listed: where the walk passes it over and the children are those of the
/// directories that were walked, every entry is the path of something that does not lie in a
/// `.git`, and is not called so.
pub proof fn law_git_is_never_listed(
    listing: Listing,
    root: Seq<u8>,
    visits: Seq<Visit>,
    children: Seq<Child>,
    cap: nat,
    i: int,
)
    requires
        walk::is_listing(listing, root, visits, children, cap),
        0 <= i < listing.entries@.len(),
        forall|k: int|
            0 <= k < visits.len() && walk::counts(#[trigger] visits[k]) ==> clear_of_git(
                root,
                walk::path_at(visits[k]),
            ),
        forall|k: int|
            0 <= k < children.len() ==> lies_in(
                #[trigger] children[k],
                walk::walked_dirs(root, walk::covered(visits, cap)),
            ),
    ensures
        exists|p: Seq<u8>| #[trigger]
            path::relative_text(root, p) == Some(listing.entries@[i].path@) && clear_of_git(
                root,
                p,
            ),
{
    law_every_entry_was_found(listing, root, visits, children, cap, i);
    if !listing.entries@[i].ignored {
        let k = choose|k: int|
            0 <= k < visits.len() && walk::counts(#[trigger] visits[k]) && walk::file_at(
                root,
                visits[k],
            ) == Some(listing.entries@[i]@);
        let p = walk::path_at(visits[k]);
        assert(path::relative_text(root, p) == Some(listing.entries@[i].path@));
    } else {
        let k = choose|k: int|
            0 <= k < children.len() && walk::placeholder_at(
                root,
                walk::walked_paths(walk::counted(visits)),
                #[trigger] children[k],
            ) == Some(listing.entries@[i]@);
        let seen = walk::covered(visits, cap);
        let dirs = walk::walked_dirs(root, seen);
        assert(lies_in(children[k], dirs));
        if let Child::Entry { name, path, .. } = children[k] {
            let p = path@;
            let d = choose|d: int|
                0 <= d < dirs.len() && path::components(p) == path::components(
                    #[trigger] dirs[d],
                ).push(name@);
            assert(path::relative_text(root, p) == Some(listing.entries@[i].path@));
            lemma_walked_dir_is_clear(root, visits, cap, d);
            let start = path::components(root).len() as int;
            let above = path::components(dirs[d]);
            let rest = path::rest_below(root, p);
            assert forall|m: int| 0 <= m < rest.len() implies rest[m] != walk::git_dir() by {
                assert(rest[m] == above.push(name@)[start + m]);
                if start + m < above.len() {
                    assert(path::rest_below(root, dirs[d])[m] == rest[m]);
                    assert(path::rest_below(root, dirs[d]).contains(rest[m]));
                }
            }
            assert(clear_of_git(root, p));
        }
    }
}

proof fn lemma_walked_dir_is_clear(root: Seq<u8>, visits: Seq<Visit>, cap: nat, d: int)
    requires
        0 <= d < walk::walked_dirs(root, walk::covered(visits, cap)).len(),
        forall|k: int|
            0 <= k < visits.len() && walk::counts(#[trigger] visits[k]) ==> clear_of_git(
                root,
                walk::path_at(visits[k]),
            ),
    ensures
        clear_of_git(root, walk::walked_dirs(root, walk::covered(visits, cap))[d]),
{
    let seen = walk::covered(visits, cap);
    if d == 0 {
        assert(path::rest_below(root, root) =~= Seq::empty());
    } else {
        let n = lemma_filter_map_source(seen, |v: Visit| walk::dir_at(v), d - 1);
        let k = lemma_covered_source(visits, cap, n);
        assert(walk::counts(visits[k]));
    }
}

/// Where different elements map to entries with different paths, no path is there twice.
proof fn lemma_filter_map_no_path_twice<A>(s: Seq<A>, f: spec_fn(A) -> Option<git::Entry>)
    requires
        forall|i: int, j: int|
            0 <= i < j < s.len() && f(#[trigger] s[i]) is Some && f(#[trigger] s[j]) is Some ==> f(
                s[i],
            )->0.path != f(s[j])->0.path,
    ensures
        no_path_twice(s.filter_map(f)),
    decreases s.len(),
{
    if s.len() > 0 {
        let front = s.drop_last();
        let out = s.filter_map(f);
        assert forall|i: int, j: int|
            0 <= i < j < front.len() && f(#[trigger] front[i]) is Some && f(
                #[trigger] front[j],
            ) is Some implies f(front[i])->0.path != f(front[j])->0.path by {
            assert(front[i] == s[i]);
            assert(front[j] == s[j]);
        }
        lemma_filter_map_no_path_twice(front, f);
        let before = front.filter_map(f);
        assert forall|i: int, j: int| 0 <= i < j < out.len() implies (#[trigger] out[i]).path != (
        #[trigger] out[j]).path by {
            if j < before.len() {
                assert(out[i] == before[i]);
                assert(out[j] == before[j]);
            } else {
                assert(out[i] == before[i]);
                let k = lemma_filter_map_source(front, f, i);
                assert(front[k] == s[k]);
                assert(s[s.len() - 1] == s.last());
                assert(f(s[k])->0.path != f(s[s.len() - 1])->0.path);
            }
        }
    }
}

/// With no path twice, no path picks out two entries.
proof fn lemma_at_path_of_distinct(entries: Seq<git::Entry>, path: Seq<char>)
    requires
        no_path_twice(entries),
    ensures
        order::at_path(entries, path).len() <= 1,
    decreases entries.len(),
{
    reveal(Seq::filter);
    if entries.len() > 0 {
        let front = entries.drop_last();
        assert(no_path_twice(front)) by {
            assert forall|i: int, j: int| 0 <= i < j < front.len() implies (
            #[trigger] front[i]).path != (#[trigger] front[j]).path by {
                assert(front[i] == entries[i]);
                assert(front[j] == entries[j]);
            }
        }
        lemma_at_path_of_distinct(front, path);
        let same = |e: git::Entry| e.path == path;
        if entries.last().path == path && order::at_path(front, path).len() > 0 {
            let e = order::at_path(front, path)[0];
            front.lemma_filter_pred(same, 0);
            assert(front.filter(same).contains(e));
            front.lemma_filter_contains_rev(same, e);
            let k = choose|k: int| 0 <= k < front.len() && front[k] == e;
            assert(entries[k] == e);
            assert(entries[entries.len() - 1] == entries.last());
        }
    }
}

/// Two entries with one path are both picked out by it.
proof fn lemma_at_path_of_twins(entries: Seq<git::Entry>, i: int, j: int)
    requires
        0 <= i < j < entries.len(),
        entries[i].path == entries[j].path,
    ensures
        order::at_path(entries, entries[i].path).len() >= 2,
{
    let path = entries[i].path;
    let same = |e: git::Entry| e.path == path;
    let head = entries.take(j);
    let tail = entries.skip(j);
    assert(head + tail =~= entries);
    Seq::filter_distributes_over_add(head, tail, same);
    assert(head[i] == entries[i]);
    assert(tail[0] == entries[j]);
    head.lemma_filter_contains(same, i);
    tail.lemma_filter_contains(same, 0);
    assert(head.filter(same).len() > 0);
    assert(tail.filter(same).len() > 0);
}

/// The components of a child's path.
pub open spec fn place_of(child: Child) -> Option<Seq<Seq<u8>>> {
    match child {
        Child::Unreadable => None,
        Child::Entry { path, .. } => Some(path::components(path@)),
    }
}

/// Nothing is listed twice: where the walk comes upon no path twice, and no child is looked at
/// twice, the entries have different paths.
pub proof fn law_nothing_is_listed_twice(
    listing: Listing,
    root: Seq<u8>,
    visits: Seq<Visit>,
    children: Seq<Child>,
    cap: nat,
)
    requires
        walk::is_listing(listing, root, visits, children, cap),
        forall|i: int, j: int|
            0 <= i < j < walk::counted(visits).len() ==> path::components(
                walk::path_at(#[trigger] walk::counted(visits)[i]),
            ) != path::components(walk::path_at(#[trigger] walk::counted(visits)[j])),
        forall|i: int, j: int|
            0 <= i < j < children.len() && place_of(#[trigger] children[i]) is Some ==> place_of(
                children[i],
            ) != place_of(#[trigger] children[j]),
    ensures
        no_path_twice(git::entries_of(listing.entries@)),
{
    let all = walk::listed(root, visits, children, cap);
    let shown = git::entries_of(listing.entries@);
    lemma_listed_no_path_twice(root, visits, children, cap);
    assert forall|i: int, j: int| 0 <= i < j < shown.len() implies (#[trigger] shown[i]).path != (
    #[trigger] shown[j]).path by {
        if shown[i].path == shown[j].path {
            lemma_at_path_of_twins(shown, i, j);
            lemma_at_path_of_distinct(all, shown[i].path);
            assert(order::at_path(shown, shown[i].path) == order::at_path(all, shown[i].path));
        }
    }
}

proof fn lemma_listed_no_path_twice(
    root: Seq<u8>,
    visits: Seq<Visit>,
    children: Seq<Child>,
    cap: nat,
)
    requires
        forall|i: int, j: int|
            0 <= i < j < walk::counted(visits).len() ==> path::components(
                walk::path_at(#[trigger] walk::counted(visits)[i]),
            ) != path::components(walk::path_at(#[trigger] walk::counted(visits)[j])),
        forall|i: int, j: int|
            0 <= i < j < children.len() && place_of(#[trigger] children[i]) is Some ==> place_of(
                children[i],
            ) != place_of(#[trigger] children[j]),
    ensures
        no_path_twice(walk::listed(root, visits, children, cap)),
{
    let seen = walk::covered(visits, cap);
    let walked = walk::walked_paths(seen);
    let f = |v: Visit| walk::file_at(root, v);
    let g = |c: Child| walk::placeholder_at(root, walked, c);
    let files = walk::walked_files(root, seen);
    let hidden = walk::hidden(root, visits, children, cap);
    let all = walk::listed(root, visits, children, cap);
    assert forall|i: int, j: int|
        0 <= i < j < seen.len() && f(#[trigger] seen[i]) is Some && f(
            #[trigger] seen[j],
        ) is Some implies f(seen[i])->0.path != f(seen[j])->0.path by {
        let counted = walk::counted(visits);
        assert(seen[i] == counted[i]);
        assert(seen[j] == counted[j]);
        if f(seen[i])->0.path == f(seen[j])->0.path {
            path_laws::law_relative_paths_tell_paths_apart(
                root,
                walk::path_at(seen[i]),
                walk::path_at(seen[j]),
            );
        }
    }
    lemma_filter_map_no_path_twice(seen, f);
    assert forall|i: int, j: int|
        0 <= i < j < children.len() && g(#[trigger] children[i]) is Some && g(
            #[trigger] children[j],
        ) is Some implies g(children[i])->0.path != g(children[j])->0.path by {
        if g(children[i])->0.path == g(children[j])->0.path {
            if let Child::Entry { path: a, .. } = children[i] {
                if let Child::Entry { path: b, .. } = children[j] {
                    path_laws::law_relative_paths_tell_paths_apart(root, a@, b@);
                }
            }
        }
    }
    lemma_filter_map_no_path_twice(children, g);
    assert(no_path_twice(hidden));
    assert forall|i: int, j: int| 0 <= i < j < all.len() implies (#[trigger] all[i]).path != (
    #[trigger] all[j]).path by {
        if j < files.len() {
            assert(all[i] == files[i]);
            assert(all[j] == files[j]);
        } else if i >= files.len() {
            assert(all[i] == hidden[i - files.len()]);
            assert(all[j] == hidden[j - files.len()]);
        } else {
            assert(all[i] == files[i]);
            assert(all[j] == hidden[j - files.len()]);
            let m = lemma_filter_map_source(seen, f, i);
            let n = lemma_filter_map_source(children, g, j - files.len());
            if let Child::Entry { name, path, .. } = children[n] {
                let places = seen.map_values(|v: Visit| path::components(walk::path_at(v)));
                assert(places[m] == path::components(walk::path_at(seen[m])));
                assert(walked.contains(places[m]));
                if all[i].path == all[j].path {
                    path_laws::law_relative_paths_tell_paths_apart(
                        root,
                        walk::path_at(seen[m]),
                        path@,
                    );
                }
            }
        }
    }
}

/// The walk goes down from `root`: what it comes upon lies below the root, and so does every
/// directory on the way, which it has come upon too.
pub open spec fn goes_down(root: Seq<u8>, seen: Seq<Visit>) -> bool {
    forall|k: int|
        0 <= k < seen.len() ==> {
            let place = path::components(walk::path_at(#[trigger] seen[k]));
            &&& path::components(root).len() < place.len()
            &&& forall|n: int|
                path::components(root).len() < n < place.len() ==> walk::walked_paths(
                    seen,
                ).contains(#[trigger] place.take(n))
        }
}

/// A place that the walk did not come upon is not on the way to one that it did.
proof fn lemma_not_on_the_way(
    root: Seq<u8>,
    seen: Seq<Visit>,
    place: Seq<Seq<u8>>,
    k: int,
)
    requires
        goes_down(root, seen),
        !walk::walked_paths(seen).contains(place),
        path::components(root).len() < place.len(),
        0 <= k < seen.len(),
    ensures
        !place.is_prefix_of(path::components(walk::path_at(seen[k]))),
{
    let there = path::components(walk::path_at(seen[k]));
    if place.is_prefix_of(there) {
        let places = seen.map_values(|v: Visit| path::components(walk::path_at(v)));
        assert(places[k] == there);
        assert(walk::walked_paths(seen).contains(there));
        assert(there.take(place.len() as int) =~= place);
        assert(there.take(there.len() as int) =~= there);
    }
}

/// Nor is it on the way to one of the directories that were walked.
proof fn lemma_not_on_the_way_to_dir(
    root: Seq<u8>,
    seen: Seq<Visit>,
    place: Seq<Seq<u8>>,
    d: int,
)
    requires
        goes_down(root, seen),
        !walk::walked_paths(seen).contains(place),
        path::components(root).len() < place.len(),
        0 <= d < walk::walked_dirs(root, seen).len(),
    ensures
        !place.is_prefix_of(path::components(walk::walked_dirs(root, seen)[d])),
{
    if d > 0 {
        let k = lemma_filter_map_source(seen, |v: Visit| walk::dir_at(v), d - 1);
        lemma_not_on_the_way(root, seen, place, k);
    }
}

/// An ignored directory collapses to one entry: nothing is listed that lies below something that
/// is listed as ignored.
pub proof fn law_an_ignored_directory_collapses(
    listing: Listing,
    root: Seq<u8>,
    visits: Seq<Visit>,
    children: Seq<Child>,
    cap: nat,
    i: int,
    j: int,
    above: Seq<u8>,
    below: Seq<u8>,
)
    requires
        walk::is_listing(listing, root, visits, children, cap),
        goes_down(root, walk::covered(visits, cap)),
        forall|k: int|
            0 <= k < children.len() ==> lies_in(
                #[trigger] children[k],
                walk::walked_dirs(root, walk::covered(visits, cap)),
            ),
        0 <= i < listing.entries@.len(),
        0 <= j < listing.entries@.len(),
        listing.entries@[i].ignored,
        path::relative_text(root, above) == Some(listing.entries@[i].path@),
        path::relative_text(root, below) == Some(listing.entries@[j].path@),
        path::components(above).is_prefix_of(path::components(below)),
    ensures
        path::components(above) == path::components(below),
{
    let seen = walk::covered(visits, cap);
    let walked = walk::walked_paths(seen);
    let dirs = walk::walked_dirs(root, seen);
    let place = path::components(above);
    let there = path::components(below);
    lemma_entry_source(listing, root, visits, children, cap, i);
    lemma_entry_source(listing, root, visits, children, cap, j);
    let a = choose|k: int|
        0 <= k < children.len() && walk::placeholder_at(root, walked, #[trigger] children[k])
            == Some(listing.entries@[i]@);
    assert(lies_in(children[a], dirs));
    if let Child::Entry { name, path, .. } = children[a] {
        path_laws::law_relative_paths_tell_paths_apart(root, above, path@);
        let d = choose|d: int|
            0 <= d < dirs.len() && path::components(path@) == path::components(
                #[trigger] dirs[d],
            ).push(name@);
        if d > 0 {
            let _ = lemma_filter_map_source(seen, |v: Visit| walk::dir_at(v), d - 1);
        }
        assert(path::components(root).len() < place.len());
    }
    if !listing.entries@[j].ignored {
        let k = choose|k: int|
            0 <= k < seen.len() && walk::file_at(root, #[trigger] seen[k]) == Some(
                listing.entries@[j]@,
            );
        path_laws::law_relative_paths_tell_paths_apart(root, below, walk::path_at(seen[k]));
        lemma_not_on_the_way(root, seen, place, k);
    } else {
        let b = choose|k: int|
            0 <= k < children.len() && walk::placeholder_at(root, walked, #[trigger] children[k])
                == Some(listing.entries@[j]@);
        assert(lies_in(children[b], dirs));
        if let Child::Entry { name, path, .. } = children[b] {
            path_laws::law_relative_paths_tell_paths_apart(root, below, path@);
            let d = choose|d: int|
                0 <= d < dirs.len() && path::components(path@) == path::components(
                    #[trigger] dirs[d],
                ).push(name@);
            let dir = path::components(dirs[d]);
            lemma_not_on_the_way_to_dir(root, seen, place, d);
            if place.len() < there.len() {
                assert(there.drop_last() =~= dir);
                assert(place =~= dir.subrange(0, place.len() as int));
            } else {
                assert(place =~= there);
            }
        }
    }
}

/// Where an entry comes from, among what the budget covers.
proof fn lemma_entry_source(
    listing: Listing,
    root: Seq<u8>,
    visits: Seq<Visit>,
    children: Seq<Child>,
    cap: nat,
    i: int,
)
    requires
        walk::is_listing(listing, root, visits, children, cap),
        0 <= i < listing.entries@.len(),
    ensures
        !listing.entries@[i].ignored ==> exists|k: int|
            0 <= k < walk::covered(visits, cap).len() && walk::file_at(
                root,
                #[trigger] walk::covered(visits, cap)[k],
            ) == Some(listing.entries@[i]@),
        listing.entries@[i].ignored ==> exists|k: int|
            0 <= k < children.len() && walk::placeholder_at(
                root,
                walk::walked_paths(walk::covered(visits, cap)),
                #[trigger] children[k],
            ) == Some(listing.entries@[i]@),
{
    lemma_listing_members(listing, root, visits, children, cap);
    let shown = git::entries_of(listing.entries@);
    let e = shown[i];
    assert(e == listing.entries@[i]@);
    assert(shown.contains(e));
    lemma_listed_splits(root, visits, children, cap, e);
    let seen = walk::covered(visits, cap);
    let files = walk::walked_files(root, seen);
    let hidden = walk::hidden(root, visits, children, cap);
    if files.contains(e) {
        let m = choose|m: int| 0 <= m < files.len() && files[m] == e;
        let k = lemma_filter_map_source(seen, |v: Visit| walk::file_at(root, v), m);
        assert(walk::file_at(root, seen[k]) == Some(e));
    } else {
        let m = choose|m: int| 0 <= m < hidden.len() && hidden[m] == e;
        let walked = walk::walked_paths(seen);
        let k = lemma_filter_map_source(
            children,
            |c: Child| walk::placeholder_at(root, walked, c),
            m,
        );
        assert(walk::placeholder_at(root, walked, children[k]) == Some(e));
    }
}

/// Mapping and filtering goes piece by piece.
proof fn lemma_filter_map_concat<A, B>(a: Seq<A>, b: Seq<A>, f: spec_fn(A) -> Option<B>)
    ensures
        (a + b).filter_map(f) == a.filter_map(f) + b.filter_map(f),
    decreases b.len(),
{
    if b.len() == 0 {
        assert(a + b =~= a);
    } else {
        assert((a + b).drop_last() =~= a + b.drop_last());
        lemma_filter_map_concat(a, b.drop_last(), f);
    }
    assert((a + b).filter_map(f) =~= a.filter_map(f) + b.filter_map(f));
}

/// A visit that does not count, to the root itself or to something that cannot be read, drops
/// out: the listing is what it is without it.
pub proof fn law_a_visit_that_does_not_count_drops_out(
    root: Seq<u8>,
    before: Seq<Visit>,
    visit: Visit,
    behind: Seq<Visit>,
    children: Seq<Child>,
    cap: nat,
)
    requires
        !walk::counts(visit),
    ensures
        walk::listed(root, before + seq![visit] + behind, children, cap) == walk::listed(
            root,
            before + behind,
            children,
            cap,
        ),
        walk::cut_short(root, before + seq![visit] + behind, children, cap) == walk::cut_short(
            root,
            before + behind,
            children,
            cap,
        ),
{
    let f = |v: Visit| walk::counts(v);
    before.lemma_filter_push(visit, f);
    assert(before + seq![visit] =~= before.push(visit));
    Seq::filter_distributes_over_add(before.push(visit), behind, f);
    Seq::filter_distributes_over_add(before, behind, f);
    assert(walk::counted(before + seq![visit] + behind) == walk::counted(before + behind));
}

/// A child that adds no placeholder drops out: one that cannot be read, that is called `.git`,
/// that the walk came upon, or that is an empty directory.
pub proof fn law_a_child_without_placeholder_drops_out(
    root: Seq<u8>,
    visits: Seq<Visit>,
    before: Seq<Child>,
    child: Child,
    behind: Seq<Child>,
    cap: nat,
)
    requires
        walk::placeholder_at(
            root,
            walk::walked_paths(walk::covered(visits, cap)),
            child,
        ) is None,
    ensures
        walk::listed(root, visits, before + seq![child] + behind, cap) == walk::listed(
            root,
            visits,
            before + behind,
            cap,
        ),
        walk::cut_short(root, visits, before + seq![child] + behind, cap) == walk::cut_short(
            root,
            visits,
            before + behind,
            cap,
        ),
{
    let walked = walk::walked_paths(walk::covered(visits, cap));
    let f = |c: Child| walk::placeholder_at(root, walked, c);
    lemma_filter_map_concat(before + seq![child], behind, f);
    lemma_filter_map_concat(before, seq![child], f);
    lemma_filter_map_concat(before, behind, f);
    Seq::lemma_filter_map_singleton(child, f);
    assert(before.filter_map(f) + Seq::<git::Entry>::empty() =~= before.filter_map(f));
    assert(walk::placeholders(root, walked, before + seq![child] + behind) =~= walk::placeholders(
        root,
        walked,
        before + behind,
    ));
}

} // verus!
