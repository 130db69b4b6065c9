//! What holds of every listing from its first visit to its last entry, stated on the calls that
//! make it: on the fields of what the walk and the look at the children came upon, and on the
//! fields of the entries that come out.
use vstd::prelude::*;
use vstd::seq_lib::*;
use vstd::string::*;
use vstd::utf8::*;

use crate::git;
use crate::order_laws;
use crate::path;
use crate::path_laws;
use crate::walk;
use crate::walk::{Child, Contents, Kind, Listing, Scan, Visit, Walk, WalkRules};
use crate::walk_laws;

verus! {

/// A walk of `root` goes through `states` where it comes upon `visits`, and is told after each
/// whether to go on.
pub open spec fn walked(
    root: Vec<u8>,
    cap: usize,
    visits: Seq<Visit>,
    goes_on: Seq<bool>,
    states: Seq<Walk>,
) -> bool {
    &&& goes_on.len() == visits.len()
    &&& states.len() == visits.len() + 1
    &&& call_ensures(Walk::start, (root, cap), states[0])
    &&& forall|i: int|
        0 <= i < visits.len() ==> call_ensures(
            Walk::visit,
            (states[i], #[trigger] visits[i]),
            (states[i + 1], goes_on[i]),
        )
}

/// The look at the children that begins where `walk` ends goes through `states` where it comes upon
/// `children`, and is told after each whether to go on.
pub open spec fn looked(
    walk: Walk,
    children: Seq<Child>,
    goes_on: Seq<bool>,
    states: Seq<Scan>,
) -> bool {
    &&& goes_on.len() == children.len()
    &&& states.len() == children.len() + 1
    &&& call_ensures(Walk::end, (walk,), states[0])
    &&& forall|i: int|
        0 <= i < children.len() ==> call_ensures(
            Scan::child,
            (states[i], #[trigger] children[i]),
            (states[i + 1], goes_on[i]),
        )
}

/// `scan` is what there is once the walk of `root` came upon `visits` and the look at the children
/// upon `children`.
pub open spec fn comes_of(
    root: Vec<u8>,
    cap: usize,
    visits: Seq<Visit>,
    children: Seq<Child>,
    scan: Scan,
) -> bool {
    exists|a: Seq<bool>, walks: Seq<Walk>, b: Seq<bool>, scans: Seq<Scan>|
        #![trigger walked(root, cap, visits, a, walks), looked(walks[visits.len() as int], children, b, scans)]
        walked(root, cap, visits, a, walks) && looked(
            walks[visits.len() as int],
            children,
            b,
            scans,
        ) && scan == scans[children.len() as int]
}

/// A child that the ignore rules hide: it could be read, is not called `.git`, is none of the paths
/// that the walk came upon, is a file or a directory with something in it, and its path can be
/// written as text below the root.
pub open spec fn ignored(root: Seq<u8>, visits: Seq<Visit>, child: Child) -> bool {
    match child {
        Child::Unreadable => false,
        Child::Entry { name, path, kind } => {
            &&& name@ != seq![0x2eu8, 0x67, 0x69, 0x74]
            &&& forall|k: int|
                0 <= k < visits.len() ==> !((#[trigger] visits[k]) matches Visit::Entry {
                    depth,
                    path: p,
                    ..
                } && depth > 0 && path::components(p@) == path::components(path@))
            &&& kind == Kind::File || kind == Kind::Directory(Contents::Occupied)
            &&& path::relative_text(root, path@) is Some
        },
    }
}

/// The state of a walk keeps all that it was given.
proof fn lemma_walked(
    root: Vec<u8>,
    cap: usize,
    visits: Seq<Visit>,
    goes_on: Seq<bool>,
    states: Seq<Walk>,
    k: int,
)
    requires
        walked(root, cap, visits, goes_on, states),
        0 <= k <= visits.len(),
    ensures
        states[k].root() == root@,
        states[k].cap() == cap,
        states[k].visits() == visits.take(k),
    decreases k,
{
    if k == 0 {
        assert(visits.take(0) =~= Seq::<Visit>::empty());
    } else {
        lemma_walked(root, cap, visits, goes_on, states, k - 1);
        assert(call_ensures(
            Walk::visit,
            (states[k - 1], visits[k - 1]),
            (states[k], goes_on[k - 1]),
        ));
        assert(visits.take(k) =~= visits.take(k - 1).push(visits[k - 1]));
    }
}

/// And so does the state of the look at the children.
proof fn lemma_looked(
    walk: Walk,
    children: Seq<Child>,
    goes_on: Seq<bool>,
    states: Seq<Scan>,
    k: int,
)
    requires
        looked(walk, children, goes_on, states),
        0 <= k <= children.len(),
    ensures
        states[k].root() == walk.root(),
        states[k].cap() == walk.cap(),
        states[k].visits() == walk.visits(),
        states[k].children() == children.take(k),
    decreases k,
{
    if k == 0 {
        assert(children.take(0) =~= Seq::<Child>::empty());
    } else {
        lemma_looked(walk, children, goes_on, states, k - 1);
        assert(call_ensures(
            Scan::child,
            (states[k - 1], children[k - 1]),
            (states[k], goes_on[k - 1]),
        ));
        assert(children.take(k) =~= children.take(k - 1).push(children[k - 1]));
    }
}

proof fn lemma_comes_of(
    root: Vec<u8>,
    cap: usize,
    visits: Seq<Visit>,
    children: Seq<Child>,
    scan: Scan,
)
    requires
        comes_of(root, cap, visits, children, scan),
    ensures
        scan.root() == root@,
        scan.cap() == cap,
        scan.visits() == visits,
        scan.children() == children,
{
    let (a, walks, b, scans) = choose|
        a: Seq<bool>,
        walks: Seq<Walk>,
        b: Seq<bool>,
        scans: Seq<Scan>,
    |
        #![trigger walked(root, cap, visits, a, walks), looked(walks[visits.len() as int], children, b, scans)]
        walked(root, cap, visits, a, walks) && looked(
            walks[visits.len() as int],
            children,
            b,
            scans,
        ) && scan == scans[children.len() as int];
    lemma_walked(root, cap, visits, a, walks, visits.len() as int);
    lemma_looked(walks[visits.len() as int], children, b, scans, children.len() as int);
    assert(visits.take(visits.len() as int) =~= visits);
    assert(children.take(children.len() as int) =~= children);
}

/// The visits that spend the budget are those that met something.
proof fn lemma_met(visits: Seq<Visit>)
    ensures
        visits.filter(|v: Visit| v matches Visit::Entry { depth, .. } && depth > 0) == walk::counted(visits),
{
    let a = |v: Visit| v matches Visit::Entry { depth, .. } && depth > 0;
    let b = |v: Visit| walk::counts(v);
    assert(a =~= b);
}

proof fn lemma_git_spelled()
    ensures
        walk::git_dir() == seq![0x2eu8, 0x67, 0x69, 0x74],
{
    reveal_strlit(".git");
    assert(is_ascii(".git"));
    is_ascii_spec_bytes(".git");
    assert(walk::git_dir() =~= seq![0x2eu8, 0x67, 0x69, 0x74]);
}

/// A path was walked where one of the visits that met something leads there.
proof fn lemma_walked_paths(visits: Seq<Visit>, place: Seq<Seq<u8>>)
    ensures
        walk::walked_paths(walk::counted(visits)).contains(place) <==> !(forall|k: int|
            0 <= k < visits.len() ==> !((#[trigger] visits[k]) matches Visit::Entry {
                depth,
                path: p,
                ..
            } && depth > 0 && path::components(p@) == place)),
{
    let counted = walk::counted(visits);
    let f = |v: Visit| walk::counts(v);
    let places = counted.map_values(|v: Visit| path::components(walk::path_at(v)));
    if walk::walked_paths(counted).contains(place) {
        let n = choose|n: int| 0 <= n < places.len() && places[n] == place;
        assert(counted.contains(counted[n]));
        visits.lemma_filter_pred(f, n);
        visits.lemma_filter_contains_rev(f, counted[n]);
        let k = choose|k: int| 0 <= k < visits.len() && visits[k] == counted[n];
        assert(visits[k] matches Visit::Entry { depth, path: p, .. } && depth > 0
            && path::components(p@) == place);
    }
    assert forall|k: int|
        0 <= k < visits.len() && ((#[trigger] visits[k]) matches Visit::Entry { depth, path: p, .. }
            && depth > 0 && path::components(p@) == place) implies walk::walked_paths(
        counted,
    ).contains(place) by {
        visits.lemma_filter_contains(f, k);
        let n = choose|n: int| 0 <= n < counted.len() && counted[n] == visits[k];
        assert(places[n] == place);
    }
}

/// A child asks for a placeholder where the ignore rules hide it.
proof fn lemma_ignored(root: Seq<u8>, visits: Seq<Visit>, child: Child)
    ensures
        walk::placeholder_at(root, walk::walked_paths(walk::counted(visits)), child) == if ignored(
            root,
            visits,
            child,
        ) {
            Some(as_placeholder(root, child))
        } else {
            None
        },
{
    lemma_git_spelled();
    if let Child::Entry { path, .. } = child {
        lemma_walked_paths(visits, path::components(path@));
    }
}

/// The entry of a file that was met.
pub open spec fn as_file(root: Seq<u8>, visit: Visit) -> git::Entry {
    git::Entry {
        path: match visit {
            Visit::Entry { path, .. } => path::relative_text(root, path@)->0,
            Visit::Unreadable => Seq::empty(),
        },
        ignored: false,
        is_dir: false,
    }
}

/// The entry of a child that the ignore rules hide.
pub open spec fn as_placeholder(root: Seq<u8>, child: Child) -> git::Entry {
    match child {
        Child::Entry { path, kind, .. } => git::Entry {
            path: path::relative_text(root, path@)->0,
            ignored: true,
            is_dir: kind is Directory,
        },
        Child::Unreadable => git::Entry { path: Seq::empty(), ignored: true, is_dir: false },
    }
}

/// A file whose path can be written as text below the root.
pub open spec fn shown_file(root: Seq<u8>, visit: Visit) -> bool {
    match visit {
        Visit::Unreadable => false,
        Visit::Entry { path, is_dir, .. } => !is_dir && path::relative_text(root, path@) is Some,
    }
}

/// The first `n` of `s`, or all where there are fewer.
pub open spec fn first_of<A>(s: Seq<A>, n: int) -> Seq<A> {
    s.take(if s.len() < n {
        s.len() as int
    } else {
        n
    })
}

/// To map and filter is to filter, then to map.
proof fn lemma_filter_then_map<A, B>(
    s: Seq<A>,
    f: spec_fn(A) -> Option<B>,
    keep: spec_fn(A) -> bool,
    to: spec_fn(A) -> B,
)
    requires
        forall|x: A| #[trigger]
            f(x) == if keep(x) {
                Some(to(x))
            } else {
                None
            },
    ensures
        s.filter_map(f) == s.filter(keep).map_values(to),
    decreases s.len(),
{
    reveal(Seq::filter);
    if s.len() > 0 {
        let front = s.drop_last();
        lemma_filter_then_map(front, f, keep, to);
        assert(f(s.last()) == if keep(s.last()) {
            Some(to(s.last()))
        } else {
            None
        });
        if keep(s.last()) {
            assert(front.filter(keep).push(s.last()).map_values(to) =~= front.filter(
                keep,
            ).map_values(to) + seq![to(s.last())]);
        }
    }
    assert(s.filter_map(f) =~= s.filter(keep).map_values(to));
}

/// The placeholders of a walk are the children that the ignore rules hide.
proof fn lemma_placeholders(root: Seq<u8>, visits: Seq<Visit>, children: Seq<Child>)
    ensures
        walk::placeholders(root, walk::walked_paths(walk::counted(visits)), children)
            == children.filter(|c: Child| ignored(root, visits, c)).map_values(
            |c: Child| as_placeholder(root, c),
        ),
{
    let paths = walk::walked_paths(walk::counted(visits));
    let f = |c: Child| walk::placeholder_at(root, paths, c);
    let keep = |c: Child| ignored(root, visits, c);
    let to = |c: Child| as_placeholder(root, c);
    assert forall|c: Child| #[trigger]
        f(c) == if keep(c) {
            Some(to(c))
        } else {
            None
        } by {
        lemma_ignored(root, visits, c);
    }
    lemma_filter_then_map(children, f, keep, to);
}

/// The files of a walk are those visits that are files and can be shown.
proof fn lemma_files(root: Seq<u8>, seen: Seq<Visit>)
    ensures
        walk::walked_files(root, seen) == seen.filter(|v: Visit| shown_file(root, v)).map_values(
            |v: Visit| as_file(root, v),
        ),
{
    let f = |v: Visit| walk::file_at(root, v);
    let keep = |v: Visit| shown_file(root, v);
    let to = |v: Visit| as_file(root, v);
    lemma_filter_then_map(seen, f, keep, to);
}

/// Every file that the walk came upon is listed as itself, at whatever depth it lies, where the
/// budget covers the walk and its path can be written as text.
pub proof fn law_every_kept_file_is_listed(
    root: Vec<u8>,
    cap: usize,
    visits: Seq<Visit>,
    children: Seq<Child>,
    scan: Scan,
    listing: Listing,
    i: int,
    depth: usize,
    path: Vec<u8>,
    text: Seq<char>,
)
    requires
        comes_of(root, cap, visits, children, scan),
        call_ensures(Scan::listing, (scan,), listing),
        visits.filter(|v: Visit| v matches Visit::Entry { depth, .. } && depth > 0).len() <= cap,
        0 <= i < visits.len(),
        visits[i] == (Visit::Entry { depth, path, is_dir: false }),
        depth > 0,
        path::relative_text(root@, path@) == Some(text),
    ensures
        exists|e: int|
            0 <= e < listing.entries@.len() && (#[trigger] listing.entries@[e]).path@ == text
                && !listing.entries@[e].ignored && !listing.entries@[e].is_dir,
{
    lemma_comes_of(root, cap, visits, children, scan);
    lemma_met(visits);
    let said = git::entries_of(listing.entries@);
    let file = git::Entry { path: text, ignored: false, is_dir: false };
    walk_laws::lemma_listing_members(listing, root@, visits, children, cap as nat);
    let seen = walk::covered(visits, cap as nat);
    visits.lemma_filter_contains(|v: Visit| walk::counts(v), i);
    let k = choose|k: int| 0 <= k < seen.len() && seen[k] == visits[i];
    walk_laws::lemma_filter_map_keeps(seen, |v: Visit| walk::file_at(root@, v), k);
    let files = walk::walked_files(root@, seen);
    assert(files.contains(file));
    let m = choose|m: int| 0 <= m < files.len() && files[m] == file;
    assert(walk::listed(root@, visits, children, cap as nat)[m] == file);
    assert(said.contains(file));
    let e = choose|e: int| 0 <= e < said.len() && said[e] == file;
    assert(listing.entries@[e]@ == file);
}

/// Every child that the ignore rules hide is listed as ignored in a listing that was not cut short:
/// one that is not called `.git`, is none of the paths that the walk came upon, and is a file or a
/// directory with something in it. A directory is listed as one.
pub proof fn law_every_ignored_child_is_listed(
    root: Vec<u8>,
    cap: usize,
    visits: Seq<Visit>,
    children: Seq<Child>,
    scan: Scan,
    listing: Listing,
    i: int,
    name: Vec<u8>,
    path: Vec<u8>,
    kind: Kind,
    text: Seq<char>,
)
    requires
        comes_of(root, cap, visits, children, scan),
        call_ensures(Scan::listing, (scan,), listing),
        !listing.capped,
        0 <= i < children.len(),
        children[i] == (Child::Entry { name, path, kind }),
        name@ != seq![0x2eu8, 0x67, 0x69, 0x74],
        forall|k: int|
            0 <= k < visits.len() ==> !((#[trigger] visits[k]) matches Visit::Entry {
                depth,
                path: p,
                ..
            } && depth > 0 && path::components(p@) == path::components(path@)),
        kind == Kind::File || kind == Kind::Directory(Contents::Occupied),
        path::relative_text(root@, path@) == Some(text),
    ensures
        exists|e: int|
            0 <= e < listing.entries@.len() && (#[trigger] listing.entries@[e]).path@ == text
                && listing.entries@[e].ignored && listing.entries@[e].is_dir == (kind is Directory),
{
    lemma_comes_of(root, cap, visits, children, scan);
    lemma_ignored(root@, visits, children[i]);
    let said = git::entries_of(listing.entries@);
    let hidden = git::Entry { path: text, ignored: true, is_dir: kind is Directory };
    walk_laws::law_a_whole_listing_holds_every_ignored_child(
        listing,
        root@,
        visits,
        children,
        cap as nat,
        i,
    );
    assert(said.contains(hidden));
    let e = choose|e: int| 0 <= e < said.len() && said[e] == hidden;
    assert(listing.entries@[e]@ == hidden);
}

/// Nothing that the walk came upon is listed as ignored, at whatever depth it lies.
pub proof fn law_nothing_that_was_met_is_ignored(
    root: Vec<u8>,
    cap: usize,
    visits: Seq<Visit>,
    children: Seq<Child>,
    scan: Scan,
    listing: Listing,
    e: int,
    i: int,
    depth: usize,
    path: Vec<u8>,
    is_dir: bool,
)
    requires
        comes_of(root, cap, visits, children, scan),
        call_ensures(Scan::listing, (scan,), listing),
        0 <= e < listing.entries@.len(),
        listing.entries@[e].ignored,
        0 <= i < visits.len(),
        visits[i] == (Visit::Entry { depth, path, is_dir }),
        depth > 0,
    ensures
        path::relative_text(root@, path@) != Some(listing.entries@[e].path@),
{
    law_every_entry_was_come_upon(root, cap, visits, children, scan, listing, e);
    let k = choose|k: int|
        0 <= k < children.len() && ((#[trigger] children[k]) matches Child::Entry { path: p, .. }
            && path::relative_text(root@, p@) == Some(listing.entries@[e].path@) && forall|m: int|
            0 <= m < visits.len() ==> !((#[trigger] visits[m]) matches Visit::Entry {
                depth,
                path: q,
                ..
            } && depth > 0 && path::components(q@) == path::components(p@)));
    if let Child::Entry { path: p, .. } = children[k] {
        if path::relative_text(root@, path@) == Some(listing.entries@[e].path@) {
            path_laws::law_relative_paths_tell_paths_apart(root@, path@, p@);
            assert(visits[i] matches Visit::Entry { depth, path: q, .. } && depth > 0
                && path::components(q@) == path::components(p@));
        }
    }
}

/// Every entry was come upon: one that is not ignored is a file of the walk, below the root, and
/// one that is ignored is a child that the ignore rules hide. So only what is ignored is listed as
/// a directory.
pub proof fn law_every_entry_was_come_upon(
    root: Vec<u8>,
    cap: usize,
    visits: Seq<Visit>,
    children: Seq<Child>,
    scan: Scan,
    listing: Listing,
    e: int,
)
    requires
        comes_of(root, cap, visits, children, scan),
        call_ensures(Scan::listing, (scan,), listing),
        0 <= e < listing.entries@.len(),
    ensures
        !listing.entries@[e].ignored ==> !listing.entries@[e].is_dir && exists|k: int|
            0 <= k < visits.len() && ((#[trigger] visits[k]) matches Visit::Entry {
                depth,
                path,
                is_dir,
            } && depth > 0 && !is_dir && path::relative_text(root@, path@) == Some(
                listing.entries@[e].path@,
            )),
        listing.entries@[e].ignored ==> exists|k: int|
            0 <= k < children.len() && ((#[trigger] children[k]) matches Child::Entry {
                name,
                path,
                kind,
            } && name@ != seq![0x2eu8, 0x67, 0x69, 0x74] && (kind == Kind::File || kind
                == Kind::Directory(Contents::Occupied)) && listing.entries@[e].is_dir == (
            kind is Directory) && path::relative_text(root@, path@) == Some(
                listing.entries@[e].path@,
            ) && forall|m: int|
                0 <= m < visits.len() ==> !((#[trigger] visits[m]) matches Visit::Entry {
                    depth,
                    path: p,
                    ..
                } && depth > 0 && path::components(p@) == path::components(path@))),
{
    lemma_comes_of(root, cap, visits, children, scan);
    walk_laws::law_every_entry_was_found(listing, root@, visits, children, cap as nat, e);
    if !listing.entries@[e].ignored {
        let k = choose|k: int|
            0 <= k < visits.len() && walk::counts(#[trigger] visits[k]) && walk::file_at(
                root@,
                visits[k],
            ) == Some(listing.entries@[e]@);
        assert(visits[k] matches Visit::Entry { depth, path, is_dir } && depth > 0 && !is_dir
            && path::relative_text(root@, path@) == Some(listing.entries@[e].path@));
    } else {
        let k = choose|k: int|
            0 <= k < children.len() && walk::placeholder_at(
                root@,
                walk::walked_paths(walk::counted(visits)),
                #[trigger] children[k],
            ) == Some(listing.entries@[e]@);
        lemma_ignored(root@, visits, children[k]);
        assert(children[k] is Entry);
    }
}

/// A listing says that it was cut short exactly where the paths that the walk met and the children
/// that the ignore rules hide are more than the budget: one that fits exactly is whole.
pub proof fn law_only_the_budget_cuts_a_listing_short(
    root: Vec<u8>,
    cap: usize,
    visits: Seq<Visit>,
    children: Seq<Child>,
    scan: Scan,
    listing: Listing,
)
    requires
        comes_of(root, cap, visits, children, scan),
        call_ensures(Scan::listing, (scan,), listing),
    ensures
        listing.capped <==> visits.filter(|v: Visit| v matches Visit::Entry { depth, .. } && depth > 0).len() + children.filter(
            |c: Child| ignored(root@, visits, c),
        ).len() > cap,
{
    lemma_comes_of(root, cap, visits, children, scan);
    lemma_met(visits);
    lemma_placeholders(root@, visits, children);
    walk_laws::law_a_listing_that_fits_is_whole(listing, root@, visits, children, cap as nat);
}

/// The walk is told to go on as long as the budget covers what it met, and no longer.
pub proof fn law_a_walk_goes_on_within_its_budget(
    root: Vec<u8>,
    cap: usize,
    visits: Seq<Visit>,
    goes_on: Seq<bool>,
    states: Seq<Walk>,
    i: int,
)
    requires
        walked(root, cap, visits, goes_on, states),
        0 <= i < visits.len(),
    ensures
        goes_on[i] <==> visits.take(i + 1).filter(|v: Visit| v matches Visit::Entry { depth, .. } && depth > 0).len() <= cap,
{
    lemma_walked(root, cap, visits, goes_on, states, i + 1);
    lemma_met(visits.take(i + 1));
    assert(call_ensures(Walk::visit, (states[i], visits[i]), (states[i + 1], goes_on[i])));
}

/// The look at the children is told to go on as long as the budget covers what the walk met and
/// what the ignore rules hide, and no longer.
pub proof fn law_a_look_goes_on_within_its_budget(
    root: Vec<u8>,
    cap: usize,
    visits: Seq<Visit>,
    met_on: Seq<bool>,
    walks: Seq<Walk>,
    children: Seq<Child>,
    goes_on: Seq<bool>,
    states: Seq<Scan>,
    i: int,
)
    requires
        walked(root, cap, visits, met_on, walks),
        looked(walks[visits.len() as int], children, goes_on, states),
        0 <= i < children.len(),
    ensures
        goes_on[i] <==> visits.filter(|v: Visit| v matches Visit::Entry { depth, .. } && depth > 0).len() + children.take(i + 1).filter(
            |c: Child| ignored(root@, visits, c),
        ).len() <= cap,
{
    lemma_walked(root, cap, visits, met_on, walks, visits.len() as int);
    assert(visits.take(visits.len() as int) =~= visits);
    lemma_looked(walks[visits.len() as int], children, goes_on, states, i + 1);
    lemma_met(visits);
    lemma_placeholders(root@, visits, children.take(i + 1));
    assert(call_ensures(Scan::child, (states[i], children[i]), (states[i + 1], goes_on[i])));
}

/// The directories that are to be looked into are the root and every directory that the walk met,
/// in the order in which it met them. Once the budget has cut the listing short there are none.
pub proof fn law_every_directory_is_looked_into(
    root: Vec<u8>,
    cap: usize,
    visits: Seq<Visit>,
    children: Seq<Child>,
    scan: Scan,
    dirs: Vec<Vec<u8>>,
)
    requires
        comes_of(root, cap, visits, children, scan),
        call_ensures(Scan::dirs, (&scan,), dirs),
    ensures
        ({
            let entered = visits.filter(
                |v: Visit| v matches Visit::Entry { depth, is_dir, .. } && depth > 0 && is_dir,
            );
            if visits.filter(|v: Visit| v matches Visit::Entry { depth, .. } && depth > 0).len() + children.filter(
                |c: Child| ignored(root@, visits, c),
            ).len() > cap {
                dirs@.len() == 0
            } else {
                &&& dirs@.len() == entered.len() + 1
                &&& dirs@[0]@ == root@
                &&& forall|k: int|
                    0 <= k < entered.len() ==> ((#[trigger] entered[k]) matches Visit::Entry {
                        path,
                        ..
                    } && dirs@[k + 1]@ == path@)
                &&& forall|i: int|
                    0 <= i < visits.len() ==> ((#[trigger] visits[i]) matches Visit::Entry {
                        depth,
                        path,
                        is_dir,
                    } ==> (depth > 0 && is_dir ==> exists|d: int|
                        1 <= d < dirs@.len() && (#[trigger] dirs@[d])@ == path@))
            }
        }),
{
    lemma_comes_of(root, cap, visits, children, scan);
    lemma_met(visits);
    lemma_placeholders(root@, visits, children);
    let all = path::bytes_of(dirs@);
    assert(all.len() == dirs@.len());
    let entered = visits.filter(
        |v: Visit| v matches Visit::Entry { depth, is_dir, .. } && depth > 0 && is_dir,
    );
    if !walk::cut_short(root@, visits, children, cap as nat) {
        let counted = walk::counted(visits);
        lemma_entered(root@, visits);
        assert(dirs@[0]@ == all[0]);
        let places = entered.map_values(|v: Visit| walk::path_at(v));
        assert forall|k: int| 0 <= k < entered.len() implies ((
        #[trigger] entered[k]) matches Visit::Entry { path, .. } && dirs@[k + 1]@ == path@) by {
            visits.lemma_filter_pred(
                |v: Visit| v matches Visit::Entry { depth, is_dir, .. } && depth > 0 && is_dir,
                k,
            );
            assert(all[k + 1] == dirs@[k + 1]@);
            assert(all[k + 1] == places[k]);
        }
        assert forall|i: int| 0 <= i < visits.len() implies ((
        #[trigger] visits[i]) matches Visit::Entry { depth, path, is_dir } ==> (depth > 0 && is_dir
            ==> exists|d: int| 1 <= d < dirs@.len() && (#[trigger] dirs@[d])@ == path@)) by {
            if let Visit::Entry { depth, path, is_dir } = visits[i] {
                if depth > 0 && is_dir {
                    visits.lemma_filter_contains(
                        |v: Visit|
                            v matches Visit::Entry { depth, is_dir, .. } && depth > 0 && is_dir,
                        i,
                    );
                    let k = choose|k: int| 0 <= k < entered.len() && entered[k] == visits[i];
                    assert(dirs@[k + 1]@ == path@);
                }
            }
        }
    }
}

/// The directories of a walk behind its root.
proof fn lemma_entered(root: Seq<u8>, visits: Seq<Visit>)
    ensures
        walk::walked_dirs(root, walk::counted(visits)) == seq![root] + visits.filter(
            |v: Visit| v matches Visit::Entry { depth, is_dir, .. } && depth > 0 && is_dir,
        ).map_values(|v: Visit| walk::path_at(v)),
{
    let counted = walk::counted(visits);
    let f = |v: Visit| walk::dir_at(v);
    let is = |v: Visit| v matches Visit::Entry { is_dir, .. } && is_dir;
    let to = |v: Visit| walk::path_at(v);
    lemma_filter_then_map(counted, f, is, to);
    lemma_filter_twice(
        visits,
        |v: Visit| walk::counts(v),
        is,
        |v: Visit| v matches Visit::Entry { depth, is_dir, .. } && depth > 0 && is_dir,
    );
}

/// To filter twice is to filter by both.
proof fn lemma_filter_twice<A>(
    s: Seq<A>,
    p: spec_fn(A) -> bool,
    q: spec_fn(A) -> bool,
    both: spec_fn(A) -> bool,
)
    requires
        forall|x: A| #[trigger] both(x) == (p(x) && q(x)),
    ensures
        s.filter(p).filter(q) == s.filter(both),
    decreases s.len(),
{
    reveal(Seq::filter);
    if s.len() > 0 {
        let front = s.drop_last();
        lemma_filter_twice(front, p, q, both);
        assert(both(s.last()) == (p(s.last()) && q(s.last())));
        if p(s.last()) {
            front.filter(p).lemma_filter_push(s.last(), q);
        }
    }
}

/// A child has to be looked at exactly where it is not called `.git` and is none of the paths that
/// the walk met, as far as the budget covers them.
pub proof fn law_only_what_was_not_met_is_looked_at(
    root: Vec<u8>,
    cap: usize,
    visits: Seq<Visit>,
    children: Seq<Child>,
    scan: Scan,
    name: &[u8],
    path: &[u8],
    r: bool,
)
    requires
        comes_of(root, cap, visits, children, scan),
        call_ensures(Scan::concerns, (&scan, name, path), r),
    ensures
        visits.filter(|v: Visit| v matches Visit::Entry { depth, .. } && depth > 0).len() <= cap
            ==> (r <==> name@ != seq![0x2eu8, 0x67, 0x69, 0x74] && forall|k: int|
            0 <= k < visits.len() ==> !((#[trigger] visits[k]) matches Visit::Entry {
                depth,
                path: p,
                ..
            } && depth > 0 && path::components(p@) == path::components(path@))),
        ({
            let seen = first_of(
                visits.filter(|v: Visit| v matches Visit::Entry { depth, .. } && depth > 0),
                cap as int,
            );
            r <==> name@ != seq![0x2eu8, 0x67, 0x69, 0x74] && forall|k: int|
                0 <= k < seen.len() ==> !((#[trigger] seen[k]) matches Visit::Entry {
                    path: p,
                    ..
                } && path::components(p@) == path::components(path@))
        }),
{
    let place = path::components(path@);
    let seen = walk::covered(visits, cap as nat);
    let places = seen.map_values(|v: Visit| path::components(walk::path_at(v)));
    lemma_comes_of(root, cap, visits, children, scan);
    lemma_met(visits);
    lemma_git_spelled();
    lemma_walked_paths(visits, place);
    assert(seen =~= first_of(walk::counted(visits), cap as int));
    assert forall|k: int| 0 <= k < seen.len() implies (#[trigger] seen[k]) is Entry by {
        let _ = walk_laws::lemma_covered_source(visits, cap as nat, k);
    }
    if walk::walked_paths(seen).contains(place) {
        let n = choose|n: int| 0 <= n < places.len() && places[n] == place;
        assert(seen[n] is Entry);
    }
    assert forall|k: int|
        0 <= k < seen.len() && ((#[trigger] seen[k]) matches Visit::Entry { path: p, .. }
            && path::components(p@) == place) implies walk::walked_paths(seen).contains(place) by {
        assert(places[k] == place);
    }
}

/// A listing holds, as often as they are there, the files among the paths that the budget covers
/// and, where it covers the whole walk, the children that the ignore rules hide, as many as the
/// rest of the budget covers. Nothing else is in it. It stands in the order of the bytes of the
/// paths, and entries with the same path stand in the order in which they were come upon.
pub proof fn law_a_listing_is_what_was_come_upon(
    root: Vec<u8>,
    cap: usize,
    visits: Seq<Visit>,
    children: Seq<Child>,
    scan: Scan,
    listing: Listing,
)
    requires
        comes_of(root, cap, visits, children, scan),
        call_ensures(Scan::listing, (scan,), listing),
    ensures
        ({
            let whole = visits.filter(|v: Visit| v matches Visit::Entry { depth, .. } && depth > 0);
            let seen = first_of(whole, cap as int);
            let files = seen.filter(|v: Visit| shown_file(root@, v)).map_values(
                |v: Visit| as_file(root@, v),
            );
            let hidden = children.filter(|c: Child| ignored(root@, visits, c)).map_values(
                |c: Child| as_placeholder(root@, c),
            );
            let found = if whole.len() > cap {
                files
            } else {
                files + first_of(hidden, cap - whole.len())
            };
            &&& order_laws::all_said(listing.entries@).to_multiset() == found.to_multiset()
            &&& forall|text: Seq<char>| #[trigger]
                order_laws::with_path(order_laws::all_said(listing.entries@), text)
                    == order_laws::with_path(found, text)
        }),
        forall|i: int, j: int|
            0 <= i <= j < listing.entries@.len() ==> order_laws::first_or_same(
                encode_utf8((#[trigger] listing.entries@[i]).path@),
                encode_utf8((#[trigger] listing.entries@[j]).path@),
            ),
{
    lemma_comes_of(root, cap, visits, children, scan);
    lemma_met(visits);
    lemma_placeholders(root@, visits, children);
    let whole = walk::counted(visits);
    let seen = walk::covered(visits, cap as nat);
    assert(seen =~= first_of(whole, cap as int));
    lemma_files(root@, seen);
    order_laws::lemma_sorted(
        walk::listed(root@, visits, children, cap as nat),
        listing.entries@,
    );
    let files = seen.filter(|v: Visit| shown_file(root@, v)).map_values(
        |v: Visit| as_file(root@, v),
    );
    let hidden = children.filter(|c: Child| ignored(root@, visits, c)).map_values(
        |c: Child| as_placeholder(root@, c),
    );
    let found = if whole.len() > cap {
        files
    } else {
        files + first_of(hidden, cap - whole.len())
    };
    assert(walk::listed(root@, visits, children, cap as nat) =~= found);
}

/// The walk passes over what is called `.git`, and over nothing else.
pub proof fn law_only_git_is_passed_over(name: &[u8], r: bool)
    requires
        call_ensures(walk::enters, (name,), r),
    ensures
        r <==> name@ != seq![0x2eu8, 0x67, 0x69, 0x74],
{
    lemma_git_spelled();
}

/// What the walk of a plain directory heeds: dotfiles are met, ignore files and the user's global
/// excludes count although there is no repository, a repository's own excludes and what lies above
/// the root do not, and links are not gone through.
pub proof fn law_the_rules_of_a_plain_directory(r: WalkRules)
    requires
        call_ensures(walk::plain_rules, (), r),
    ensures
        !r.hidden,
        !r.require_git,
        r.git_ignore,
        r.git_global,
        !r.git_exclude,
        r.ignore,
        !r.parents,
        !r.follow_links,
{
}

} // verus!
