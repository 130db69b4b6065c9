use reviewr::git::WorktreeEntry;
use reviewr::order::{is_not_after, sort_by_path};
use reviewr::path::{components_of, copied, relative, same_bytes};
use reviewr::path_set::PathSet;
use reviewr::walk::{
    enters, plain_rules, Child, Contents, Kind, Listing, Visit, Walk, LISTING_CAP,
};

/// One thing in a tree: where it is, whether it is a directory, whether a rule hides it.
struct Node {
    path: &'static str,
    is_dir: bool,
    hidden: bool,
}

fn file(path: &'static str) -> Node {
    Node { path, is_dir: false, hidden: false }
}

fn hidden_file(path: &'static str) -> Node {
    Node { path, is_dir: false, hidden: true }
}

fn dir(path: &'static str) -> Node {
    Node { path, is_dir: true, hidden: false }
}

fn hidden_dir(path: &'static str) -> Node {
    Node { path, is_dir: true, hidden: true }
}

const ROOT: &str = "/r";

fn at(rel: &str) -> Vec<u8> {
    format!("{ROOT}/{rel}").into_bytes()
}

fn parent(path: &str) -> &str {
    path.rsplit_once('/').map_or("", |(above, _)| above)
}

fn name(path: &str) -> &str {
    path.rsplit_once('/').map_or(path, |(_, name)| name)
}

/// Walks `tree` the way the ignore rules and `enters` tell, then looks at the children.
fn plain_files(tree: &[Node], cap: usize) -> Listing {
    let mut walk = Walk::start(ROOT.into(), cap);
    let (next, _) = walk.visit(Visit::Entry { depth: 0, path: ROOT.into(), is_dir: true });
    walk = next;
    let mut entered = vec![""];
    for node in tree {
        if !entered.contains(&parent(node.path))
            || node.hidden
            || !enters(name(node.path).as_bytes())
        {
            continue;
        }
        if node.is_dir {
            entered.push(node.path);
        }
        let depth = node.path.split('/').count();
        let (next, more) =
            walk.visit(Visit::Entry { depth, path: at(node.path), is_dir: node.is_dir });
        walk = next;
        if !more {
            break;
        }
    }
    let mut scan = walk.end();
    let dirs = scan.dirs();
    for dir in dirs {
        for node in tree {
            if at(parent(node.path)) != dir && (!parent(node.path).is_empty() || dir != b"/r") {
                continue;
            }
            let (name, path) = (name(node.path).as_bytes().to_vec(), at(node.path));
            if !scan.concerns(&name, &path) {
                continue;
            }
            let kind = if !node.is_dir {
                Kind::File
            } else if tree.iter().any(|n| parent(n.path) == node.path) {
                Kind::Directory(Contents::Occupied)
            } else {
                Kind::Directory(Contents::Empty)
            };
            let (next, more) = scan.child(Child::Entry { name, path, kind });
            scan = next;
            if !more {
                return scan.listing();
            }
        }
    }
    scan.listing()
}

fn listed(listing: &Listing) -> Vec<(&str, bool, bool)> {
    listing.entries.iter().map(|e| (e.path.as_str(), e.ignored, e.is_dir)).collect()
}

#[test]
fn a_plain_directory_lists_like_ls_files_would() {
    // The `.gitignore` decides, dotfiles list, an ignored directory collapses to one placeholder,
    // an ignored file lists as itself, and an empty ignored directory is skipped.
    let tree = [
        file(".gitignore"),
        file(".editorconfig"),
        dir("src"),
        file("src/main.rs"),
        dir("src/nested"),
        file("src/nested/.gitignore"),
        hidden_file("src/nested/local.txt"),
        file("src/nested/kept.rs"),
        hidden_dir("target"),
        dir("target/debug"),
        file("target/debug/out"),
        hidden_file("run.log"),
        hidden_dir("empty"),
    ];

    let listing = plain_files(&tree, 1000);

    assert!(!listing.capped);
    assert_eq!(
        listed(&listing),
        vec![
            (".editorconfig", false, false),
            (".gitignore", false, false),
            ("run.log", true, false),
            ("src/main.rs", false, false),
            ("src/nested/.gitignore", false, false),
            ("src/nested/kept.rs", false, false),
            ("src/nested/local.txt", true, false),
            ("target", true, true),
        ]
    );
}

#[test]
fn a_git_directory_is_never_listed() {
    let tree = [dir(".git"), file(".git/HEAD"), file("a.txt")];
    let listing = plain_files(&tree, 1000);
    assert_eq!(listed(&listing), vec![("a.txt", false, false)]);
}

const THIRTY: [&str; 30] = [
    "f00.txt", "f01.txt", "f02.txt", "f03.txt", "f04.txt", "f05.txt", "f06.txt", "f07.txt",
    "f08.txt", "f09.txt", "f10.txt", "f11.txt", "f12.txt", "f13.txt", "f14.txt", "f15.txt",
    "f16.txt", "f17.txt", "f18.txt", "f19.txt", "f20.txt", "f21.txt", "f22.txt", "f23.txt",
    "f24.txt", "f25.txt", "f26.txt", "f27.txt", "f28.txt", "f29.txt",
];

#[test]
fn the_walk_stops_at_the_cap_and_says_so() {
    let tree: Vec<Node> = THIRTY.iter().map(|path| file(path)).collect();
    let listing = plain_files(&tree, 10);
    assert!(listing.capped, "the cap is reported");
    assert_eq!(listing.entries.len(), 10);
    assert!(listing.entries.iter().all(|e| !e.ignored), "a capped walk invents no ignores");

    let whole = plain_files(&tree, 30);
    assert!(!whole.capped, "a listing that fits exactly is whole");
    assert_eq!(whole.entries.len(), 30);
}

#[test]
fn placeholders_spend_the_cap_too() {
    let mut tree = vec![file(".gitignore")];
    for path in [
        "f00.o", "f01.o", "f02.o", "f03.o", "f04.o", "f05.o", "f06.o", "f07.o", "f08.o", "f09.o",
        "f10.o", "f11.o", "f12.o", "f13.o", "f14.o", "f15.o", "f16.o", "f17.o", "f18.o", "f19.o",
    ] {
        tree.push(hidden_file(path));
    }
    let listing = plain_files(&tree, 5);
    assert!(listing.capped);
    assert!(listing.entries.len() <= 5);
    assert_eq!(
        listing.entries[0],
        WorktreeEntry { path: ".gitignore".into(), ignored: false, is_dir: false }
    );
}

#[test]
fn a_tree_with_rules_on_two_levels_is_listed_whole() {
    let tree = [
        file(".gitignore"),
        hidden_dir("build"),
        dir("build/a"),
        file("build/a/b.o"),
        dir(".config"),
        file(".config/tool.toml"),
        dir("docs"),
        file("docs/readme.md"),
        hidden_file("docs/draft.tmp"),
        dir("lib"),
        dir("lib/sub"),
        file("lib/sub/.gitignore"),
        hidden_dir("lib/sub/gen"),
        file("lib/sub/gen/x.rs"),
        file("lib/sub/mod.rs"),
    ];
    assert_eq!(
        listed(&plain_files(&tree, 1000)),
        vec![
            (".config/tool.toml", false, false),
            (".gitignore", false, false),
            ("build", true, true),
            ("docs/draft.tmp", true, false),
            ("docs/readme.md", false, false),
            ("lib/sub/.gitignore", false, false),
            ("lib/sub/gen", true, true),
            ("lib/sub/mod.rs", false, false),
        ]
    );
}

#[test]
fn nothing_is_listed_twice_and_nothing_below_an_ignored_directory() {
    let tree = [
        dir("a"),
        file("a/b"),
        hidden_dir("a/c"),
        file("a/c/d"),
        hidden_dir("a/c/e"),
        file("a/c/e/f"),
        hidden_file("a/cc"),
        hidden_dir("g"),
        file("g/.git"),
    ];
    let listing = plain_files(&tree, 100);
    let shown = listed(&listing);
    assert_eq!(
        shown,
        vec![("a/b", false, false), ("a/c", true, true), ("a/cc", true, false), ("g", true, true)]
    );
    for (i, (path, ignored, _)) in shown.iter().enumerate() {
        for (other, _, _) in shown.iter().skip(i + 1) {
            assert_ne!(path, other);
            assert!(!*ignored || !other.starts_with(&format!("{path}/")));
        }
    }
}

#[test]
fn directories_spend_the_cap_without_being_listed() {
    let tree = [dir("a"), dir("a/b"), dir("a/b/c"), file("a/b/c/d")];
    let listing = plain_files(&tree, 3);
    assert!(listing.capped);
    assert!(listing.entries.is_empty());
    let whole = plain_files(&tree, 4);
    assert!(!whole.capped);
    assert_eq!(listed(&whole), vec![("a/b/c/d", false, false)]);
}

#[test]
fn a_cap_of_nothing_lists_nothing() {
    assert!(plain_files(&[file("a")], 0).capped);
    assert!(plain_files(&[hidden_file("a")], 0).capped);
    assert!(!plain_files(&[hidden_dir("a")], 0).capped, "an empty directory spends nothing");
    assert!(!plain_files(&[], 0).capped);
}

#[test]
fn unreadable_things_drop_out() {
    let walk = Walk::start(b"/r".to_vec(), 2);
    let (walk, more) = walk.visit(Visit::Unreadable);
    assert!(more);
    let (walk, more) =
        walk.visit(Visit::Entry { depth: 1, path: b"/r/d".to_vec(), is_dir: true });
    assert!(more);
    let scan = walk.end();
    assert_eq!(scan.dirs(), vec![b"/r".to_vec(), b"/r/d".to_vec()]);
    let (scan, more) = scan.child(Child::Unreadable);
    assert!(more);
    let unreadable = Child::Entry {
        name: b"x".to_vec(),
        path: b"/r/d/x".to_vec(),
        kind: Kind::Directory(Contents::Unreadable),
    };
    let (scan, more) = scan.child(unreadable);
    assert!(more);
    let (scan, more) = scan.child(Child::Entry {
        name: vec![0xff],
        path: vec![b'/', b'r', b'/', 0xff],
        kind: Kind::File,
    });
    assert!(more, "a name that is no text spends nothing");
    let (scan, more) = scan.child(Child::Entry {
        name: b"y".to_vec(),
        path: b"/r/d/y".to_vec(),
        kind: Kind::File,
    });
    assert!(more);
    let (scan, more) = scan.child(Child::Entry {
        name: b"z".to_vec(),
        path: b"/r/d/z".to_vec(),
        kind: Kind::File,
    });
    assert!(!more, "the budget is spent");
    let listing = scan.listing();
    assert!(listing.capped);
    assert_eq!(listed(&listing), vec![("d/y", true, false)]);
}

#[test]
fn a_name_that_is_no_text_spends_the_budget_of_the_walk() {
    let walk = Walk::start(b"/r".to_vec(), 1);
    let path = vec![b'/', b'r', b'/', 0xff];
    let (walk, more) = walk.visit(Visit::Entry { depth: 1, path, is_dir: false });
    assert!(more);
    let (walk, more) =
        walk.visit(Visit::Entry { depth: 1, path: b"/r/a".to_vec(), is_dir: false });
    assert!(!more);
    let listing = walk.end().listing();
    assert!(listing.capped);
    assert!(listing.entries.is_empty());
}

#[test]
fn a_scan_after_a_capped_walk_looks_at_nothing() {
    let walk = Walk::start(b"/r".to_vec(), 0);
    let (walk, more) =
        walk.visit(Visit::Entry { depth: 1, path: b"/r/a".to_vec(), is_dir: false });
    assert!(!more);
    let scan = walk.end();
    assert!(scan.dirs().is_empty());
    let (scan, more) = scan.child(Child::Entry {
        name: b"b".to_vec(),
        path: b"/r/b".to_vec(),
        kind: Kind::File,
    });
    assert!(!more);
    assert!(scan.listing().entries.is_empty());
}

#[test]
fn what_was_walked_is_found_again_however_it_is_written() {
    let walk = Walk::start(b"/r".to_vec(), 9);
    let (walk, _) = walk.visit(Visit::Entry { depth: 2, path: b"/r/a/b".to_vec(), is_dir: false });
    let scan = walk.end();
    assert!(!scan.concerns(b"b", b"/r/a/b"));
    assert!(!scan.concerns(b"b", b"/r//a/./b/"));
    assert!(scan.concerns(b"b", b"/r/a/../a/b"));
    assert!(scan.concerns(b"c", b"/r/a/c"));
    assert!(!scan.concerns(b".git", b"/r/.git"));
}

#[test]
fn the_rules_of_a_plain_directory() {
    let rules = plain_rules();
    assert!(!rules.hidden && !rules.require_git && !rules.git_exclude);
    assert!(rules.git_ignore && rules.git_global && rules.ignore);
    assert!(!rules.parents && !rules.follow_links);
    assert!(!enters(b".git"));
    assert!(enters(b".gitignore") && enters(b"git") && enters(b""));
    assert_eq!(LISTING_CAP, 20_000);
    let none = Listing::default();
    assert!(none.entries.is_empty() && !none.capped);
}

#[test]
fn components_are_those_of_the_standard_library() {
    for path in [
        "", "/", "//", ".", "./", "./.", "..", "a", "a/", "/a", "//a//b/", "./a", "a/./b", "a/.",
        "/./a", ".a/..b/...", "a/../b", ". /a", "/..", "../.",
    ] {
        let ours = components_of(path.as_bytes());
        let theirs: Vec<Vec<u8>> = std::path::Path::new(path)
            .components()
            .map(|c| c.as_os_str().to_str().unwrap().as_bytes().to_vec())
            .collect();
        assert_eq!(ours, theirs, "{path:?}");
    }
}

#[test]
fn relative_paths_are_those_of_the_standard_library() {
    let paths = ["", "/", ".", "./a", "a", "a/b", "a//b/./c", "/a", "/a/b", "/a/b/c", "..", "/ab"];
    for root in paths {
        for path in paths {
            let theirs = std::path::Path::new(path).strip_prefix(root).ok().map(|rest| {
                rest.components()
                    .map(|c| c.as_os_str().to_str().unwrap())
                    .collect::<Vec<_>>()
                    .join("/")
            });
            assert_eq!(relative(root.as_bytes(), path.as_bytes()), theirs, "{root:?} {path:?}");
        }
    }
}

#[test]
fn a_name_that_is_no_text_has_no_relative_path() {
    assert_eq!(relative(b"/r", &[b'/', b'r', b'/', 0xc3, 0xa9]), Some("é".to_string()));
    assert_eq!(relative(b"/r", &[b'/', b'r', b'/', 0xc3]), None);
    assert_eq!(relative(b"/r", &[b'/', b'r', b'/', 0xff, b'/', b'a']), None);
    assert_eq!(relative(&[b'/', 0xff], &[b'/', 0xff, b'/', b'a']), Some("a".to_string()));
}

#[test]
fn a_relative_path_leads_back() {
    for (root, path) in [("/r", "/r//a/./b/"), ("", "./a"), ("", "/a"), (".", "./x/y"), ("a", "a")] {
        let text = relative(root.as_bytes(), path.as_bytes()).unwrap();
        let whole = if root.is_empty() { text } else { format!("{root}/{text}") };
        assert_eq!(components_of(whole.as_bytes()), components_of(path.as_bytes()), "{path:?}");
    }
}

#[test]
fn a_set_of_paths_goes_by_components() {
    let mut set = PathSet::new();
    assert!(!set.contains(b"a/b"));
    set.insert(b"a/b");
    assert!(set.contains(b"a//b/"));
    assert!(!set.contains(b"/a/b"));
    assert!(!set.contains(b"ab"));
    assert!(!set.contains(b"a"));
    set.insert(&[0xff]);
    assert!(set.contains(&[0xff]));
    assert!(!set.contains(&[0xfe]));
    assert!(!set.contains("ÿ".as_bytes()));
}

#[test]
fn bytes_are_compared_and_copied() {
    assert!(same_bytes(b"ab", b"ab") && !same_bytes(b"ab", b"abc") && !same_bytes(b"ab", b"aa"));
    assert_eq!(copied(b"ab"), b"ab".to_vec());
    for (a, b) in [("", ""), ("", "a"), ("a", "ab"), ("ab", "b"), ("B", "a"), ("z", "é")] {
        assert!(is_not_after(a.as_bytes(), b.as_bytes()));
        assert_eq!(is_not_after(b.as_bytes(), a.as_bytes()), a == b);
    }
}

fn entry(path: &str, ignored: bool) -> WorktreeEntry {
    WorktreeEntry { path: path.into(), ignored, is_dir: false }
}

#[test]
fn entries_are_sorted_by_path_and_twins_keep_their_order() {
    let sorted = sort_by_path(vec![
        entry("b", true),
        entry("a/c", false),
        entry("b", false),
        entry("a", false),
        entry("B", false),
        entry("a.c", true),
        entry("b", true),
        entry("é", false),
        entry("z", false),
    ]);
    let shown: Vec<(&str, bool)> = sorted.iter().map(|e| (e.path.as_str(), e.ignored)).collect();
    assert_eq!(
        shown,
        vec![
            ("B", false),
            ("a", false),
            ("a.c", true),
            ("a/c", false),
            ("b", true),
            ("b", false),
            ("b", true),
            ("z", false),
            ("é", false),
        ]
    );
    assert!(sort_by_path(vec![]).is_empty());
}

#[test]
fn many_entries_are_sorted_as_the_standard_library_does() {
    let mut all: Vec<WorktreeEntry> = Vec::new();
    let mut seed: u64 = 7;
    for _ in 0..2000 {
        seed = seed.wrapping_mul(6364136223846793005).wrapping_add(1442695040888963407);
        all.push(entry(&format!("{:03}", (seed >> 33) % 500), (seed >> 40) % 2 == 0));
    }
    let mut theirs: Vec<(String, bool)> = all.iter().map(|e| (e.path.clone(), e.ignored)).collect();
    theirs.sort_by(|a, b| a.0.cmp(&b.0));
    let ours: Vec<(String, bool)> =
        sort_by_path(all).into_iter().map(|e| (e.path, e.ignored)).collect();
    assert_eq!(ours, theirs);
}
