//! The listing of a directory outside any repository.
//!
//! A walk of the directory says what the ignore rules keep; a look at the children of every
//! directory that was walked says what they hide. Both are bounded by one budget, so that a tree
//! of any size can be asked for. The caller does the walking and the looking, and hands what it
//! saw to a `Walk` and then to the `Scan` that comes of it.
use vstd::prelude::*;
use vstd::string::*;

use crate::git;
use crate::git::WorktreeEntry;
use crate::order;
use crate::path;
use crate::path_set::PathSet;

verus! {

/// The most entries one listing collects. A plain directory can be anything, `$HOME` included, so
/// the walk stops here rather than go on through a tree that cannot be shown.
pub const LISTING_CAP: usize = 20_000;

/// One listing: the entries, and whether the budget cut it short.
#[derive(Debug)]
pub struct Listing {
    pub entries: Vec<WorktreeEntry>,
    pub capped: bool,
}

impl Default for Listing {
    fn default() -> (r: Listing)
        ensures
            r.entries@ == Seq::<WorktreeEntry>::empty(),
            !r.capped,
    {
        Listing { entries: Vec::new(), capped: false }
    }
}

/// What the walk heeds on its way.
pub struct WalkRules {
    /// Skip names that start with a dot.
    pub hidden: bool,
    /// Heed `.gitignore` files inside a repository only.
    pub require_git: bool,
    /// Heed `.gitignore` files.
    pub git_ignore: bool,
    /// Heed the user's global excludes file.
    pub git_global: bool,
    /// Heed a repository's own `info/exclude` file.
    pub git_exclude: bool,
    /// Heed `.ignore` files.
    pub ignore: bool,
    /// Heed the ignore files of the directories above the root.
    pub parents: bool,
    /// Go through symbolic links.
    pub follow_links: bool,
}

/// The rules of a plain directory: dotfiles are listed, ignore files count although there is no
/// repository, nothing above the root applies, and links are not followed.
pub fn plain_rules() -> (r: WalkRules)
    ensures
        r == (WalkRules {
            hidden: false,
            require_git: false,
            git_ignore: true,
            git_global: true,
            git_exclude: false,
            ignore: true,
            parents: false,
            follow_links: false,
        }),
{
    WalkRules {
        hidden: false,
        require_git: false,
        git_ignore: true,
        git_global: true,
        git_exclude: false,
        ignore: true,
        parents: false,
        follow_links: false,
    }
}

/// What the walk came upon.
pub enum Visit {
    /// Something that could not be read.
    Unreadable,
    /// A path, `depth` levels below the root.
    Entry { depth: usize, path: Vec<u8>, is_dir: bool },
}

/// What is in a directory, as far as a listing cares.
pub enum Contents {
    Unreadable,
    Empty,
    Occupied,
}

/// What a child is. A symbolic link counts as a file.
pub enum Kind {
    File,
    Directory(Contents),
}

/// A child of a directory that was walked.
pub enum Child {
    /// One that could not be read.
    Unreadable,
    /// One called `name`, found at `path`.
    Entry { name: Vec<u8>, path: Vec<u8>, kind: Kind },
}

/// The name that is never listed.
pub open spec fn git_dir() -> Seq<u8> {
    ".git".spec_bytes()
}

/// A visit that spends the budget: a path that could be read, other than the root.
pub open spec fn counts(visit: Visit) -> bool {
    visit matches Visit::Entry { depth, .. } && depth > 0
}

/// The path of a visit.
pub open spec fn path_at(visit: Visit) -> Seq<u8> {
    match visit {
        Visit::Entry { path, .. } => path@,
        Visit::Unreadable => Seq::empty(),
    }
}

/// The visits that spend the budget.
pub open spec fn counted(visits: Seq<Visit>) -> Seq<Visit> {
    visits.filter(|v: Visit| counts(v))
}

/// The walk came upon more than the budget covers.
pub open spec fn overrun(visits: Seq<Visit>, cap: nat) -> bool {
    counted(visits).len() > cap
}

/// The visits that the budget covers.
pub open spec fn covered(visits: Seq<Visit>, cap: nat) -> Seq<Visit> {
    if overrun(visits, cap) {
        counted(visits).take(cap as int)
    } else {
        counted(visits)
    }
}

/// The path of a directory that was visited.
pub open spec fn dir_at(visit: Visit) -> Option<Seq<u8>> {
    match visit {
        Visit::Entry { path, is_dir, .. } if is_dir => Some(path@),
        _ => None,
    }
}

/// The directories that were walked, the root first.
pub open spec fn walked_dirs(root: Seq<u8>, seen: Seq<Visit>) -> Seq<Seq<u8>> {
    seq![root] + seen.filter_map(|v: Visit| dir_at(v))
}

/// The paths that were walked.
pub open spec fn walked_paths(seen: Seq<Visit>) -> Set<Seq<Seq<u8>>> {
    seen.map_values(|v: Visit| path::components(path_at(v))).to_set()
}

/// What a visit adds to the listing: a file, unless its path cannot be written as text.
pub open spec fn file_at(root: Seq<u8>, visit: Visit) -> Option<git::Entry> {
    match visit {
        Visit::Entry { path, is_dir, .. } if !is_dir => match path::relative_text(root, path@) {
            Some(text) => Some(git::Entry { path: text, ignored: false, is_dir: false }),
            None => None,
        },
        _ => None,
    }
}

/// The files that were walked.
pub open spec fn walked_files(root: Seq<u8>, seen: Seq<Visit>) -> Seq<git::Entry> {
    seen.filter_map(|v: Visit| file_at(root, v))
}

/// A child that the walk neither yielded nor was told to pass over.
pub open spec fn left_out(name: Seq<u8>, path: Seq<u8>, walked: Set<Seq<Seq<u8>>>) -> bool {
    name != git_dir() && !walked.contains(path::components(path))
}

/// A file, or a directory with something in it.
pub open spec fn shows(kind: Kind) -> bool {
    match kind {
        Kind::File => true,
        Kind::Directory(contents) => contents is Occupied,
    }
}

/// What a child adds to the listing: a placeholder, where the ignore rules hide it.
pub open spec fn placeholder_at(
    root: Seq<u8>,
    walked: Set<Seq<Seq<u8>>>,
    child: Child,
) -> Option<git::Entry> {
    match child {
        Child::Unreadable => None,
        Child::Entry { name, path, kind } => if left_out(name@, path@, walked) && shows(kind) {
            match path::relative_text(root, path@) {
                Some(text) => Some(
                    git::Entry { path: text, ignored: true, is_dir: kind is Directory },
                ),
                None => None,
            }
        } else {
            None
        },
    }
}

/// The placeholders that `children` ask for.
pub open spec fn placeholders(
    root: Seq<u8>,
    walked: Set<Seq<Seq<u8>>>,
    children: Seq<Child>,
) -> Seq<git::Entry> {
    children.filter_map(|c: Child| placeholder_at(root, walked, c))
}

/// The placeholders of a walk that the budget did not cut short.
pub open spec fn hidden(
    root: Seq<u8>,
    visits: Seq<Visit>,
    children: Seq<Child>,
    cap: nat,
) -> Seq<git::Entry> {
    if overrun(visits, cap) {
        Seq::empty()
    } else {
        placeholders(root, walked_paths(covered(visits, cap)), children)
    }
}

/// What the walk has left of the budget.
pub open spec fn room(visits: Seq<Visit>, cap: nat) -> nat {
    (cap - covered(visits, cap).len()) as nat
}

/// The first `n` of `entries`, or all where there are fewer.
pub open spec fn at_most(entries: Seq<git::Entry>, n: nat) -> Seq<git::Entry> {
    if entries.len() > n {
        entries.take(n as int)
    } else {
        entries
    }
}

/// What is listed, before it is put in order: the files that were walked, then the placeholders
/// that the rest of the budget covers.
pub open spec fn listed(
    root: Seq<u8>,
    visits: Seq<Visit>,
    children: Seq<Child>,
    cap: nat,
) -> Seq<git::Entry> {
    walked_files(root, covered(visits, cap)) + at_most(
        hidden(root, visits, children, cap),
        room(visits, cap),
    )
}

/// The budget cut the listing short.
pub open spec fn cut_short(
    root: Seq<u8>,
    visits: Seq<Visit>,
    children: Seq<Child>,
    cap: nat,
) -> bool {
    overrun(visits, cap) || hidden(root, visits, children, cap).len() > room(visits, cap)
}

/// `listing` is the listing of a directory where the walk came upon `visits` and its directories
/// hold `children`.
pub open spec fn is_listing(
    listing: Listing,
    root: Seq<u8>,
    visits: Seq<Visit>,
    children: Seq<Child>,
    cap: nat,
) -> bool {
    &&& listing.capped == cut_short(root, visits, children, cap)
    &&& order::stably_sorted(
        listed(root, visits, children, cap),
        git::entries_of(listing.entries@),
    )
}

/// Whether the walk may yield something called `name`, or go into it: anything but `.git`.
pub fn enters(name: &[u8]) -> (r: bool)
    ensures
        r == (name@ != git_dir()),
{
    !path::same_bytes(name, ".git".as_bytes())
}

/// A walk that is under way.
pub struct Walk {
    root: Vec<u8>,
    cap: usize,
    dirs: Vec<Vec<u8>>,
    walked: PathSet,
    entries: Vec<WorktreeEntry>,
    spent: usize,
    capped: bool,
    visits: Ghost<Seq<Visit>>,
}

impl Walk {
    /// The directory that is walked.
    pub closed spec fn root(self) -> Seq<u8> {
        self.root@
    }

    /// The budget.
    pub closed spec fn cap(self) -> nat {
        self.cap as nat
    }

    /// All that the walk has come upon.
    pub closed spec fn visits(self) -> Seq<Visit> {
        self.visits@
    }

    #[verifier::type_invariant]
    spec fn inv(self) -> bool {
        let seen = covered(self.visits@, self.cap as nat);
        &&& self.spent == seen.len()
        &&& self.spent <= self.cap
        &&& self.capped == overrun(self.visits@, self.cap as nat)
        &&& path::bytes_of(self.dirs@) == walked_dirs(self.root@, seen)
        &&& self.walked@ == walked_paths(seen)
        &&& git::entries_of(self.entries@) == walked_files(self.root@, seen)
    }
}

/// What one more visit does to those that count.
proof fn lemma_covered_push(visits: Seq<Visit>, visit: Visit, cap: nat)
    ensures
        covered(visits, cap).len() <= cap,
        overrun(visits.push(visit), cap) == (overrun(visits, cap) || (counts(visit) && covered(
            visits,
            cap,
        ).len() == cap)),
        covered(visits.push(visit), cap) == if counts(visit) && covered(visits, cap).len() < cap {
            covered(visits, cap).push(visit)
        } else {
            covered(visits, cap)
        },
{
    visits.lemma_filter_push(visit, |v: Visit| counts(v));
    let now = counted(visits.push(visit));
    if overrun(visits, cap) {
        assert(now.take(cap as int) =~= counted(visits).take(cap as int));
    } else if overrun(visits.push(visit), cap) {
        assert(now.take(cap as int) =~= counted(visits));
    }
}

/// What one more visit within the budget adds.
proof fn lemma_seen_push(root: Seq<u8>, seen: Seq<Visit>, visit: Visit)
    ensures
        walked_dirs(root, seen.push(visit)) == match dir_at(visit) {
            Some(dir) => walked_dirs(root, seen).push(dir),
            None => walked_dirs(root, seen),
        },
        walked_paths(seen.push(visit)) == walked_paths(seen).insert(
            path::components(path_at(visit)),
        ),
        walked_files(root, seen.push(visit)) == match file_at(root, visit) {
            Some(file) => walked_files(root, seen).push(file),
            None => walked_files(root, seen),
        },
{
    assert(seen.push(visit).drop_last() =~= seen);
    assert(walked_dirs(root, seen.push(visit)) =~= match dir_at(visit) {
        Some(dir) => walked_dirs(root, seen).push(dir),
        None => walked_dirs(root, seen),
    });
    assert(walked_files(root, seen.push(visit)) =~= match file_at(root, visit) {
        Some(file) => walked_files(root, seen).push(file),
        None => walked_files(root, seen),
    });
    let places = seen.map_values(|v: Visit| path::components(path_at(v)));
    let place = path::components(path_at(visit));
    assert(seen.push(visit).map_values(|v: Visit| path::components(path_at(v))) =~= places.push(
        place,
    ));
    places.lemma_push_to_set_commute(place);
}

impl Walk {
    /// A walk of `root` that has not come upon anything.
    pub fn start(root: Vec<u8>, cap: usize) -> (r: Walk)
        ensures
            r.root() == root@,
            r.cap() == cap,
            r.visits() == Seq::<Visit>::empty(),
    {
        let mut dirs: Vec<Vec<u8>> = Vec::new();
        dirs.push(path::copied(root.as_slice()));
        let ghost none = Seq::<Visit>::empty();
        proof {
            assert(counted(none) =~= none) by {
                reveal(Seq::filter);
            }
            assert(covered(none, cap as nat) =~= none);
            assert(path::bytes_of(dirs@) =~= walked_dirs(root@, none));
            assert(walked_paths(none) =~= Set::<Seq<Seq<u8>>>::empty());
        }
        let entries: Vec<WorktreeEntry> = Vec::new();
        assert(git::entries_of(entries@) =~= walked_files(root@, none));
        Walk {
            root,
            cap,
            dirs,
            walked: PathSet::new(),
            entries,
            spent: 0,
            capped: false,
            visits: Ghost(none),
        }
    }

    /// Takes what the walk came upon next. Says whether the walk is to go on: it ends at the first
    /// path that the budget does not cover.
    pub fn visit(self, visit: Visit) -> (r: (Walk, bool))
        ensures
            r.0.root() == self.root(),
            r.0.cap() == self.cap(),
            r.0.visits() == self.visits().push(visit),
            r.1 == !overrun(r.0.visits(), r.0.cap()),
    {
        proof {
            use_type_invariant(&self);
        }
        let Walk { root, cap, mut dirs, mut walked, mut entries, mut spent, mut capped, visits } =
            self;
        let ghost seen = covered(visits@, cap as nat);
        let ghost history = visits@.push(visit);
        proof {
            lemma_covered_push(visits@, visit, cap as nat);
            lemma_seen_push(root@, seen, visit);
        }
        if let Visit::Entry { depth, path, is_dir } = visit {
            if depth > 0 {
                if spent >= cap {
                    capped = true;
                } else {
                    spent = spent + 1;
                    walked.insert(path.as_slice());
                    if is_dir {
                        let ghost before = path::bytes_of(dirs@);
                        dirs.push(path);
                        assert(path::bytes_of(dirs@) =~= before.push(path@));
                    } else if let Some(text) = path::relative(root.as_slice(), path.as_slice()) {
                        let ghost before = git::entries_of(entries@);
                        let entry = WorktreeEntry { path: text, ignored: false, is_dir: false };
                        entries.push(entry);
                        assert(git::entries_of(entries@) =~= before.push(entry@));
                    }
                }
            }
        }
        (
            Walk {
                root,
                cap,
                dirs,
                walked,
                entries,
                spent,
                capped,
                visits: Ghost(history),
            },
            !capped,
        )
    }
}

/// The look at the children of the directories that were walked.
pub struct Scan {
    root: Vec<u8>,
    cap: usize,
    dirs: Vec<Vec<u8>>,
    walked: PathSet,
    entries: Vec<WorktreeEntry>,
    spent: usize,
    capped: bool,
    visits: Ghost<Seq<Visit>>,
    children: Ghost<Seq<Child>>,
}

impl Scan {
    /// The directory that is listed.
    pub closed spec fn root(self) -> Seq<u8> {
        self.root@
    }

    /// The budget.
    pub closed spec fn cap(self) -> nat {
        self.cap as nat
    }

    /// All that the walk came upon.
    pub closed spec fn visits(self) -> Seq<Visit> {
        self.visits@
    }

    /// All children that were looked at.
    pub closed spec fn children(self) -> Seq<Child> {
        self.children@
    }

    #[verifier::type_invariant]
    spec fn inv(self) -> bool {
        let cap = self.cap as nat;
        let seen = covered(self.visits@, cap);
        let shown = at_most(
            hidden(self.root@, self.visits@, self.children@, cap),
            room(self.visits@, cap),
        );
        &&& seen.len() <= cap
        &&& self.spent == seen.len() + shown.len()
        &&& self.capped == cut_short(self.root@, self.visits@, self.children@, cap)
        &&& path::bytes_of(self.dirs@) == walked_dirs(self.root@, seen)
        &&& self.walked@ == walked_paths(seen)
        &&& git::entries_of(self.entries@) == listed(
            self.root@,
            self.visits@,
            self.children@,
            cap,
        )
    }
}

/// What one more child does to the placeholders.
proof fn lemma_hidden_push(
    root: Seq<u8>,
    visits: Seq<Visit>,
    children: Seq<Child>,
    child: Child,
    cap: nat,
)
    ensures
        hidden(root, visits, children.push(child), cap) == if overrun(visits, cap) {
            Seq::empty()
        } else {
            match placeholder_at(root, walked_paths(covered(visits, cap)), child) {
                Some(entry) => hidden(root, visits, children, cap).push(entry),
                None => hidden(root, visits, children, cap),
            }
        },
{
    assert(children.push(child).drop_last() =~= children);
    if !overrun(visits, cap) {
        let walked = walked_paths(covered(visits, cap));
        assert(placeholders(root, walked, children.push(child)) =~= match placeholder_at(
            root,
            walked,
            child,
        ) {
            Some(entry) => placeholders(root, walked, children).push(entry),
            None => placeholders(root, walked, children),
        });
    }
}

impl Walk {
    /// Ends the walk; what is left to do is to look at the children of its directories.
    pub fn end(self) -> (r: Scan)
        ensures
            r.root() == self.root(),
            r.cap() == self.cap(),
            r.visits() == self.visits(),
            r.children() == Seq::<Child>::empty(),
    {
        proof {
            use_type_invariant(&self);
        }
        let Walk { root, cap, dirs, walked, entries, spent, capped, visits } = self;
        let ghost none = Seq::<Child>::empty();
        proof {
            assert(hidden(root@, visits@, none, cap as nat) =~= Seq::empty());
            assert(listed(root@, visits@, none, cap as nat) =~= walked_files(
                root@,
                covered(visits@, cap as nat),
            ));
        }
        Scan { root, cap, dirs, walked, entries, spent, capped, visits, children: Ghost(none) }
    }
}

impl Scan {
    /// The directories whose children are to be looked at, in this order. There are none once the
    /// budget has cut the listing short: where that was the walk, a child that it did not come
    /// upon may just not have been reached.
    pub fn dirs(&self) -> (r: Vec<Vec<u8>>)
        ensures
            path::bytes_of(r@) == if cut_short(
                self.root(),
                self.visits(),
                self.children(),
                self.cap(),
            ) {
                Seq::empty()
            } else {
                walked_dirs(self.root(), covered(self.visits(), self.cap()))
            },
    {
        proof {
            use_type_invariant(self);
        }
        let mut r: Vec<Vec<u8>> = Vec::new();
        if self.capped {
            assert(path::bytes_of(r@) =~= Seq::empty());
            return r;
        }
        for i in 0..self.dirs.len()
            invariant
                path::bytes_of(r@) == path::bytes_of(self.dirs@).take(i as int),
        {
            let ghost before = path::bytes_of(r@);
            let dir = path::copied(self.dirs[i].as_slice());
            r.push(dir);
            assert(path::bytes_of(r@) =~= before.push(dir@));
            assert(path::bytes_of(self.dirs@).take(i + 1) =~= before.push(dir@));
        }
        assert(path::bytes_of(self.dirs@).take(self.dirs@.len() as int) =~= path::bytes_of(
            self.dirs@,
        ));
        r
    }

    /// Whether a child called `name` at `path` has to be looked at at all: the walk did not come
    /// upon it, and it is not `.git`.
    pub fn concerns(&self, name: &[u8], path: &[u8]) -> (r: bool)
        ensures
            r == left_out(name@, path@, walked_paths(covered(self.visits(), self.cap()))),
    {
        proof {
            use_type_invariant(self);
        }
        enters(name) && !self.walked.contains(path)
    }

    /// What `child` adds to the listing, if the budget allows.
    fn placeholder(&self, child: &Child) -> (r: Option<WorktreeEntry>)
        ensures
            match r {
                Some(entry) => placeholder_at(
                    self.root(),
                    walked_paths(covered(self.visits(), self.cap())),
                    *child,
                ) == Some(entry@),
                None => placeholder_at(
                    self.root(),
                    walked_paths(covered(self.visits(), self.cap())),
                    *child,
                ) is None,
            },
    {
        match child {
            Child::Unreadable => None,
            Child::Entry { name, path, kind } => {
                if !self.concerns(name.as_slice(), path.as_slice()) {
                    return None;
                }
                let is_dir = match kind {
                    Kind::File => false,
                    Kind::Directory(contents) => match contents {
                        Contents::Occupied => true,
                        _ => {
                            return None;
                        },
                    },
                };
                match path::relative(self.root.as_slice(), path.as_slice()) {
                    Some(text) => Some(WorktreeEntry { path: text, ignored: true, is_dir }),
                    None => None,
                }
            },
        }
    }

    /// Takes the next child of the directories. Says whether there is more to look at: the look
    /// ends at the first placeholder that the budget does not cover.
    pub fn child(self, child: Child) -> (r: (Scan, bool))
        ensures
            r.0.root() == self.root(),
            r.0.cap() == self.cap(),
            r.0.visits() == self.visits(),
            r.0.children() == self.children().push(child),
            r.1 == !cut_short(r.0.root(), r.0.visits(), r.0.children(), r.0.cap()),
    {
        proof {
            use_type_invariant(&self);
            lemma_hidden_push(self.root(), self.visits(), self.children(), child, self.cap());
        }
        let found = self.placeholder(&child);
        let Scan {
            root,
            cap,
            dirs,
            walked,
            mut entries,
            mut spent,
            mut capped,
            visits,
            children,
        } = self;
        let ghost history = children@.push(child);
        let ghost before = hidden(root@, visits@, children@, cap as nat);
        let ghost after = hidden(root@, visits@, history, cap as nat);
        let ghost left = room(visits@, cap as nat);
        if !capped {
            if let Some(entry) = found {
                if spent >= cap {
                    capped = true;
                    assert(at_most(after, left) =~= at_most(before, left));
                } else {
                    spent = spent + 1;
                    let ghost so_far = git::entries_of(entries@);
                    entries.push(entry);
                    assert(git::entries_of(entries@) =~= so_far.push(entry@));
                    assert(at_most(after, left) =~= at_most(before, left).push(entry@));
                    assert(so_far.push(entry@) =~= listed(root@, visits@, history, cap as nat));
                }
            }
        } else {
            assert(at_most(after, left) =~= at_most(before, left));
        }
        (
            Scan {
                root,
                cap,
                dirs,
                walked,
                entries,
                spent,
                capped,
                visits,
                children: Ghost(history),
            },
            !capped,
        )
    }

    /// The listing, in the order of the paths.
    pub fn listing(self) -> (r: Listing)
        ensures
            is_listing(r, self.root(), self.visits(), self.children(), self.cap()),
    {
        proof {
            use_type_invariant(&self);
        }
        let Scan { entries, capped, .. } = self;
        Listing { entries: order::sort_by_path(entries), capped }
    }
}

} // verus!
