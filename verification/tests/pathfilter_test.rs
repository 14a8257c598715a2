use fsscanner::pathfilter::Pathfilter;

fn filter() -> Pathfilter {
    Pathfilter::new(vec![String::from("/project")], None)
}

#[test]
fn accepts_paths_inside_root() {
    let filter = filter();
    assert!(filter.contains("/project/src/lib.rs"));
    assert!(filter.contains("src/lib.rs"));
}

#[test]
fn rejects_paths_outside_root_and_relative_escape() {
    let filter = filter();
    assert!(!filter.contains("/other/src/lib.rs"));
    assert!(!filter.contains("../outside.rs"));
}

#[test]
fn relative_paths_are_resolved_against_each_allowed_root() {
    let filter = Pathfilter::new(vec![String::from("/first"), String::from("/second")], None);

    assert!(filter.contains("src/lib.rs"));
    assert!(filter.contains("/second/src/lib.rs"));
    assert!(!filter.contains("/third/src/lib.rs"));
}

#[test]
fn writes_are_restricted_to_primary_root() {
    let filter = Pathfilter::new(vec![String::from("/first"), String::from("/second")], None);

    assert!(filter.can_write("out/result.txt"));
    assert!(filter.can_write("/first/out/result.txt"));
    assert!(!filter.can_write("/second/out/result.txt"));
    assert!(!filter.can_write("../escape.txt"));
}

#[test]
fn blocks_vcs_and_build_directories_as_components() {
    let filter = filter();

    for blocked in [
        ".git", ".svn", ".hg", "buildscripts", "build-scripts", "common-scripts", "commonscripts",
    ] {
        let path = format!("src/{blocked}/file");
        assert!(!filter.contains(&path), "component {blocked} must be blocked");
    }
}

#[test]
fn does_not_block_partial_component_matches() {
    let filter = filter();

    for allowed in [
        "my.git-data/file",
        ".github/workflow.yml",
        "buildscripts-old/file",
        "common-scripts-backup/file",
    ] {
        assert!(filter.contains(allowed), "{allowed} must remain allowed");
    }
}

#[test]
fn empty_filter_rejects_everything() {
    let filter = Pathfilter::new(Vec::new(), None);
    assert!(!filter.contains("file"));
    assert!(!filter.can_write("file"));
}

#[test]
fn resolved_symlink_target_must_stay_inside_root() {
    // The canonical forms below stand for what resolving the two links gives.
    let root = String::from("/tmp/fsscanner-filter/root");
    let filter = Pathfilter::new(vec![root.clone()], None);
    let canonical_roots = vec![Some(root.clone())];
    assert!(filter.contains_resolved(Some("/tmp/fsscanner-filter/root/inside.txt"), &canonical_roots));
    assert!(!filter.contains_resolved(
        Some("/tmp/fsscanner-filter/outside/outside.txt"),
        &canonical_roots
    ));
}

#[test]
fn resolved_targets_use_normalized_root_when_unresolved() {
    let filter = Pathfilter::new(vec![String::from("/a/./b/../c")], None);
    assert!(filter.contains_resolved(Some("/a/c/file"), &vec![None]));
    assert!(filter.contains_resolved(Some("/a/c/file"), &Vec::new()));
    assert!(!filter.contains_resolved(Some("/a/b/file"), &vec![None]));
    assert!(!filter.contains_resolved(None, &vec![None]));
    assert!(!filter.contains_resolved(Some("/a/c/.git/config"), &vec![None]));
    // A canonical form of the root replaces the configured one.
    assert!(filter.contains_resolved(Some("/real/c/file"), &vec![Some(String::from("/real/c"))]));
}

#[test]
fn relative_walk_that_climbs_back_down_is_accepted() {
    let filter = filter();
    assert!(filter.contains("src/../lib.rs"));
    assert!(filter.contains("a/b/../../c"));
    assert!(!filter.contains("a/../../c"));
    assert!(filter.contains("."));
}

#[test]
fn absolute_paths_are_normalized_before_matching() {
    let filter = filter();
    assert!(filter.contains("/project/src/../lib.rs"));
    assert!(!filter.contains("/project/../etc/passwd"));
    assert!(!filter.contains("/projectile/file"));
    assert!(filter.contains("/project"));
}

#[test]
fn roots_are_normalized_with_home() {
    let filter = Pathfilter::new(vec![String::from("~/work/./x/..")], Some(String::from("/home/tester")));
    assert_eq!(filter.roots(), vec![String::from("/home/tester/work")]);
    assert!(filter.contains("/home/tester/work/a.rs"));
    assert!(!filter.contains("/home/tester/a.rs"));
}

#[test]
fn can_write_implies_contains_on_examples() {
    let filter = Pathfilter::new(vec![String::from("/first"), String::from("/second")], None);
    for p in ["out/result.txt", "/first/a", "/second/a", "../x", "/first/.git/x", "a/./b"] {
        if filter.can_write(p) {
            assert!(filter.contains(p), "{p}");
        }
    }
}

#[test]
fn display_lists_roots() {
    let filter = Pathfilter::new(vec![String::from("/first"), String::from("/second/./x")], None);
    assert_eq!(filter.to_display_string(), "[\"/first\", \"/second/x\"]");
    assert_eq!(Pathfilter::new(Vec::new(), None).to_display_string(), "[]");
}

#[test]
fn clone_keeps_roots() {
    let filter = Pathfilter::new(vec![String::from("/first")], None);
    let copy = filter.clone();
    assert_eq!(copy.roots(), filter.roots());
    assert!(copy.contains("/first/a"));
}

#[test]
fn filter_has_debug() {
    let filter = Pathfilter::new(vec![String::from("/first")], None);
    assert!(format!("{filter:?}").contains("Pathfilter"));
}

#[test]
fn display_keeps_home_text() {
    let filter = Pathfilter::new(vec![String::from("~/w")], Some(String::from("/home//u")));
    assert_eq!(filter.roots(), vec![String::from("/home//u/w")]);
    assert_eq!(filter.to_display_string(), "[\"/home//u/w\"]");
    assert!(filter.contains("/home/u/w/a.rs"));
    assert!(!filter.contains("/home/u/a.rs"));
    assert!(filter.contains_resolved(Some("/home/u/w/f"), &vec![None]));
    assert!(!filter.contains_resolved(Some("/home/u/f"), &vec![None]));
}

#[test]
fn roots_are_normalized_and_empty_root_admits_unblocked_paths() {
    let filter = Pathfilter::new(vec![String::from("/a/b/../c")], None);
    assert_eq!(filter.roots(), vec![String::from("/a/c")]);
    assert!(filter.can_write("/a/c/x"));
    assert!(!filter.can_write("/a/b/x"));
    let open = Pathfilter::new(vec![String::from(".")], None);
    assert_eq!(open.roots(), vec![String::new()]);
    assert!(open.contains("/anything/at/all"));
    assert!(!open.contains("/repo/.git/config"));
}
