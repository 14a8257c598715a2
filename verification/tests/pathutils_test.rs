use fsscanner::components::{components, components_eq, render_components, Component};
use fsscanner::pathutils::{
    best_relaxed_match, clean_relaxed_path, first_file_candidate, matches_extension, normalize_path, path_extension_of,
    project_search_step, relaxed_candidates, stem_of_name, vcs_marker_paths, ProjectSearch,
};

#[test]
fn keeps_relative_paths_relative() {
    assert_eq!(normalize_path("src/./module/../lib.rs", None), "src/lib.rs");
}

#[test]
fn preserves_leading_parent_components() {
    assert_eq!(normalize_path("../../src/../Cargo.toml", None), "../../Cargo.toml");
}

#[test]
fn empty_and_current_directory_normalize_to_empty_relative_path() {
    assert_eq!(normalize_path("", None), "");
    assert_eq!(normalize_path(".", None), "");
}

#[test]
fn absolute_paths_do_not_escape_root() {
    assert_eq!(normalize_path("/tmp/project/../../etc/../file", None), "/file");
}

#[test]
fn expands_leading_tilde_to_home_directory() {
    let home = "/home/tester";
    assert_eq!(
        normalize_path("~/project/file.rs", Some(home)),
        format!("{home}/project/file.rs")
    );
}

#[test]
fn does_not_expand_non_leading_tilde() {
    assert_eq!(normalize_path("project/~/file.rs", None), "project/~/file.rs");
    assert_eq!(normalize_path("project/~/file.rs", Some("/home/tester")), "project/~/file.rs");
}

#[test]
fn tilde_without_home_stays() {
    assert_eq!(normalize_path("~/a/../b", None), "~/b");
    assert_eq!(normalize_path("~/../..", Some("/home/tester")), "/");
}

#[test]
fn normalize_is_idempotent_on_examples() {
    for p in ["a/./b/../../../c", "/x/../../y/.", "./a//b/", "..", "../a/..", "/", "a/b/c/"] {
        let once = normalize_path(p, None);
        assert_eq!(normalize_path(&once, None), once, "{p}");
    }
}

#[test]
fn normalize_keeps_anchor_on_examples() {
    assert_eq!(normalize_path("/..", None), "/");
    assert_eq!(normalize_path("a/../..", None), "..");
    assert_eq!(normalize_path("//a//b/", None), "/a/b");
}

#[test]
fn components_follow_unix_rules() {
    let cs = components("/a//./b/../c/");
    assert!(matches!(cs[0], Component::RootDir));
    assert!(matches!(&cs[1], Component::Normal(n) if n == "a"));
    assert!(matches!(&cs[2], Component::Normal(n) if n == "b"));
    assert!(matches!(cs[3], Component::ParentDir));
    assert!(matches!(&cs[4], Component::Normal(n) if n == "c"));
    assert_eq!(cs.len(), 5);
    let cur = components("./x");
    assert!(matches!(cur[0], Component::CurDir));
    assert_eq!(cur.len(), 2);
    assert_eq!(components(".hidden").len(), 1);
    assert!(components("").is_empty());
}

#[test]
fn render_then_parse_round_trips() {
    for p in ["/a/b", "./a/../b", "a", "/", ".", "../x/y"] {
        let cs = components(p);
        let text = render_components(&cs);
        assert_eq!(text, p);
        assert_eq!(render_components(&components(&text)), text);
    }
    assert_eq!(render_components(&components("a//b/")), "a/b");
}

#[test]
fn extensions_follow_path_rules() {
    assert_eq!(path_extension_of("dir/file.tar.gz"), Some(String::from("gz")));
    assert_eq!(path_extension_of("dir/.bashrc"), None);
    assert_eq!(path_extension_of("dir/file."), Some(String::new()));
    assert_eq!(path_extension_of("dir/file"), None);
    assert_eq!(path_extension_of("dir/file.rs/.."), None);
    assert_eq!(stem_of_name("file.tar.gz"), "file.tar");
    assert_eq!(stem_of_name(".bashrc"), ".bashrc");
    assert_eq!(stem_of_name(".a.b"), ".a");
}

#[test]
fn extension_sets_select_paths() {
    let rs = Some(vec![String::from("rs"), String::from("md")]);
    assert!(matches_extension("src/lib.rs", &rs));
    assert!(matches_extension("README.md", &rs));
    assert!(!matches_extension("Cargo.toml", &rs));
    assert!(!matches_extension("rs", &rs));
    assert!(matches_extension("anything", &None));
}

#[test]
fn relaxed_path_keeps_only_names() {
    assert_eq!(
        clean_relaxed_path("..\\src\\./lib.rs"),
        vec![String::from("src"), String::from("lib.rs")]
    );
    assert_eq!(clean_relaxed_path("/a/../b"), vec![String::from("a"), String::from("b")]);
    assert!(clean_relaxed_path("../..").is_empty());
}

#[test]
fn relaxed_candidates_strip_leading_names() {
    assert_eq!(
        relaxed_candidates("/proj", "../x/src/lib.rs"),
        vec![
            String::from("/proj/x/src/lib.rs"),
            String::from("/proj/src/lib.rs"),
            String::from("/proj/lib.rs"),
        ]
    );
    assert!(relaxed_candidates("/proj", "./..").is_empty());
}

#[test]
fn relaxed_match_prefers_longest_trailing_agreement() {
    let files = vec![
        String::from("/proj/other/lib.rs"),
        String::from("/proj/a/src/lib.rs"),
        String::from("/proj/b/src/lib.rs"),
        String::from("/proj/src/main.rs"),
    ];
    assert_eq!(best_relaxed_match("x/src/lib.rs", &files), Some(String::from("/proj/a/src/lib.rs")));
    assert_eq!(best_relaxed_match("lib.rs", &files), Some(String::from("/proj/other/lib.rs")));
    assert_eq!(best_relaxed_match("mod.rs", &files), None);
    assert_eq!(best_relaxed_match("..", &files), None);
}

#[test]
fn project_search_walks_upward() {
    assert!(matches!(project_search_step("/a/b", true), ProjectSearch::Found(d) if d == "/a/b"));
    assert!(matches!(project_search_step("/a/b", false), ProjectSearch::Parent(d) if d == "/a"));
    assert!(matches!(project_search_step("/a", false), ProjectSearch::Parent(d) if d == "/"));
    assert!(matches!(project_search_step("/", false), ProjectSearch::Top(d) if d == "/"));
    assert!(matches!(project_search_step("a", false), ProjectSearch::Parent(d) if d.is_empty()));
    assert!(matches!(project_search_step("", false), ProjectSearch::Top(d) if d.is_empty()));
}

#[test]
fn marker_paths_cover_every_vcs() {
    let paths = vcs_marker_paths("/repo");
    assert_eq!(paths.len(), 12);
    assert_eq!(paths[0], "/repo/.git");
    assert_eq!(paths[11], "/repo/.fossil-settings");
    assert_eq!(vcs_marker_paths("")[0], ".git");
}

#[test]
fn first_file_candidate_is_the_least_file() {
    assert_eq!(first_file_candidate(&vec![false, true, true]), Some(1));
    assert_eq!(first_file_candidate(&vec![true]), Some(0));
    assert_eq!(first_file_candidate(&vec![false, false]), None);
    assert_eq!(first_file_candidate(&Vec::new()), None);
}

#[test]
fn normalize_with_clean_home_is_idempotent_on_examples() {
    let home = Some("/home/tester");
    for p in ["~/a/../b", "~", "x/../y", "/r/./s"] {
        let once = normalize_path(p, home);
        assert_eq!(normalize_path(&once, home), once, "{p}");
    }
}

#[test]
fn home_text_is_kept_as_given() {
    assert_eq!(normalize_path("~/x", Some("/home//u/")), "/home//u/x");
    assert_eq!(normalize_path("~", Some("/home/u/")), "/home/u/");
    assert_eq!(normalize_path("~/a/..", Some("/home//u")), "/home//u");
    assert_eq!(normalize_path("~/./a", Some("/home/./u")), "/home/./u/a");
    assert_eq!(normalize_path("~/a/../..", Some("/home/u/")), "/home");
}

#[test]
fn normalizing_twice_keeps_components_with_any_home_spelling() {
    let home = Some("/home/u/");
    let once = normalize_path("~", home);
    assert_eq!(once, "/home/u/");
    let twice = normalize_path(&once, home);
    assert_eq!(twice, "/home/u");
    assert!(components_eq(&components(&twice), &components(&once)));
    let once = normalize_path("~/a/./b/..", Some("/home//u"));
    assert_eq!(once, "/home//u/a");
    assert!(components_eq(&components(&normalize_path(&once, Some("/home//u"))), &components(&once)));
}
