use fsscanner::fsscanner_base::{
    collect_files_all, collect_files_all_filtered, collect_files_fast, collect_files_fast_multi,
    collect_files_filtered, collect_files_multi_filtered, EntryKind, EntryStep, FileScan,
    LinkTarget, PendingDir, TargetKind,
};
use fsscanner::pathfilter::Pathfilter;

/// A directory tree described by its listings.
struct Tree {
    dirs: Vec<(&'static str, Vec<(&'static str, EntryKindSpec)>)>,
}

#[derive(Clone, Copy)]
enum EntryKindSpec {
    Dir,
    File,
    LinkToFile(&'static str),
    LinkToDir(&'static str),
    Broken,
}

/// Drives a scan over a described tree, as the application does over the file system.
fn run(mut scan: FileScan, tree: &Tree) -> Vec<String> {
    while let Some(dir) = scan.next_dir() {
        let Some((_, entries)) = tree.dirs.iter().find(|(d, _)| *d == dir.path) else {
            continue;
        };
        for (name, kind) in entries {
            let path = format!("{}/{}", dir.path, name);
            let entry_kind = match kind {
                EntryKindSpec::Dir => EntryKind::Directory,
                EntryKindSpec::File => EntryKind::File,
                _ => EntryKind::Symlink,
            };
            if let EntryStep::ResolveLink = scan.visit_entry(&dir, path, entry_kind) {
                let link = match kind {
                    EntryKindSpec::LinkToFile(t) => Some(LinkTarget {
                        target: t.to_string(),
                        kind: TargetKind::File,
                        current_dir: Some(dir.path.clone()),
                        canonical_roots: Vec::new(),
                    }),
                    EntryKindSpec::LinkToDir(t) => Some(LinkTarget {
                        target: t.to_string(),
                        kind: TargetKind::Directory,
                        current_dir: Some(dir.path.clone()),
                        canonical_roots: Vec::new(),
                    }),
                    _ => None,
                };
                scan.follow_link(&dir, link);
            }
        }
    }
    let mut files = scan.into_files();
    files.sort();
    files
}

fn tree() -> Tree {
    Tree {
        dirs: vec![
            (
                "/r",
                vec![
                    ("a.rs", EntryKindSpec::File),
                    ("b.md", EntryKindSpec::File),
                    ("sub", EntryKindSpec::Dir),
                    ("loop", EntryKindSpec::LinkToDir("/r")),
                    ("ext", EntryKindSpec::LinkToDir("/x")),
                    ("ext2", EntryKindSpec::LinkToDir("/x")),
                    ("f", EntryKindSpec::LinkToFile("/x/t.rs")),
                    ("dangling", EntryKindSpec::Broken),
                ],
            ),
            ("/r/sub", vec![("c.rs", EntryKindSpec::File), (".git", EntryKindSpec::Dir)]),
            ("/r/sub/.git", vec![("d.rs", EntryKindSpec::File)]),
            ("/x", vec![("t.rs", EntryKindSpec::File), ("back", EntryKindSpec::LinkToDir("/x"))]),
        ],
    }
}

#[test]
fn scan_terminates_on_link_cycles() {
    // The link back to the root is entered once (the root itself is not a
    // link ancestor), after which every link into it is refused; the link to
    // `/x` is entered once, and `/x/back` is refused.
    let files = run(collect_files_all("/r"), &tree());
    assert_eq!(
        files,
        vec![
            "/r/a.rs", "/r/a.rs", "/r/b.md", "/r/b.md", "/r/sub/.git/d.rs", "/r/sub/.git/d.rs",
            "/r/sub/c.rs", "/r/sub/c.rs", "/x/t.rs", "/x/t.rs", "/x/t.rs",
        ]
    );
}

#[test]
fn scan_selects_extensions() {
    assert_eq!(run(collect_files_fast("/r", "md"), &tree()), vec!["/r/b.md", "/r/b.md"]);
    assert_eq!(
        run(collect_files_fast_multi("/r", &["md", "toml"]), &tree()),
        vec!["/r/b.md", "/r/b.md"]
    );
}

#[test]
fn scan_enforces_filter() {
    let filter = Pathfilter::new(vec![String::from("/r")], None);
    // Links are resolved against canonical roots; none are given here, so the
    // configured root is used, and `/x` lies outside it.
    assert_eq!(
        run(collect_files_all_filtered("/r", &filter), &tree()),
        vec!["/r/a.rs", "/r/a.rs", "/r/b.md", "/r/b.md", "/r/sub/c.rs", "/r/sub/c.rs"]
    );
    assert_eq!(
        run(collect_files_filtered("/r", "rs", &filter), &tree()),
        vec!["/r/a.rs", "/r/a.rs", "/r/sub/c.rs", "/r/sub/c.rs"]
    );
    assert_eq!(
        run(collect_files_multi_filtered("/r", &["md"], &filter), &tree()),
        vec!["/r/b.md", "/r/b.md"]
    );
}

#[test]
fn scan_of_unlisted_root_is_empty() {
    assert!(run(collect_files_all("/nowhere"), &tree()).is_empty());
}

#[test]
fn directories_are_queued_not_collected() {
    let mut scan = collect_files_all("/r");
    let root = scan.next_dir().unwrap();
    assert!(scan.next_dir().is_none());
    assert!(matches!(
        scan.visit_entry(&root, String::from("/r/sub"), EntryKind::Directory),
        EntryStep::Done
    ));
    assert!(matches!(scan.visit_entry(&root, String::from("/r/dev"), EntryKind::Other), EntryStep::Done));
    let next: PendingDir = scan.next_dir().unwrap();
    assert_eq!(next.path, "/r/sub");
    assert!(scan.into_files().is_empty());
}

#[test]
fn link_to_ancestor_directory_is_not_followed() {
    let mut scan = collect_files_all("/r");
    let root = scan.next_dir().unwrap();
    let link = LinkTarget {
        target: String::from("/x"),
        kind: TargetKind::Directory,
        current_dir: Some(String::from("/r")),
        canonical_roots: Vec::new(),
    };
    scan.follow_link(&root, Some(link));
    let entered = scan.next_dir().unwrap();
    assert_eq!(entered.path, "/x");
    assert_eq!(entered.symlink_ancestors, vec![String::from("/r"), String::from("/x")]);
    let back = LinkTarget {
        target: String::from("/x/."),
        kind: TargetKind::Directory,
        current_dir: Some(String::from("/x")),
        canonical_roots: Vec::new(),
    };
    scan.follow_link(&entered, Some(back));
    assert!(scan.next_dir().is_none());
}

#[test]
fn multi_extension_scan_is_union_of_single_scans() {
    let mut singles = run(collect_files_fast("/r", "rs"), &tree());
    singles.extend(run(collect_files_fast("/r", "md"), &tree()));
    singles.sort();
    assert_eq!(run(collect_files_fast_multi("/r", &["rs", "md"]), &tree()), singles);
    assert_eq!(
        run(collect_files_fast_multi("/r", &["rs", "rs"]), &tree()),
        run(collect_files_fast("/r", "rs"), &tree())
    );
}
