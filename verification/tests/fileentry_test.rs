use fsscanner::fileentry::{markdown_section, FileEntry, ReadOutcome};
use fsscanner::pathfilter::Pathfilter;

#[test]
fn test_display_formatting() {
    let entry = FileEntry {
        path: String::from("Cargo.toml"),
        data: String::from("[package]\nname = \"test\""),
    };

    let display_string = entry.to_display_string();

    let expected = "=== Path: Cargo.toml ===\n=== Content: ===\n[package]\nname = \"test\"";
    assert_eq!(display_string, expected);
}

#[test]
fn empty_strings_name_no_file() {
    let list = vec![String::from("a"), String::new(), String::from("b")];
    assert_eq!(FileEntry::non_empty_paths(list), vec![String::from("a"), String::from("b")]);
}

#[test]
fn filter_selects_paths_in_order() {
    let filter = Pathfilter::new(vec![String::from("/project")], None);
    let list = vec![
        String::from("/project/a.rs"),
        String::from("/elsewhere/b.rs"),
        String::from("c.rs"),
        String::from("../d.rs"),
    ];
    assert_eq!(
        FileEntry::accepted_paths(Some(&filter), &list),
        vec![String::from("/project/a.rs"), String::from("c.rs")]
    );
    assert_eq!(FileEntry::accepted_paths(None, &list), list);
}

#[test]
fn chunk_size_rounds_up() {
    assert_eq!(FileEntry::chunk_size(10, 4), 3);
    assert_eq!(FileEntry::chunk_size(8, 4), 2);
    assert_eq!(FileEntry::chunk_size(1, 8), 1);
    assert_eq!(FileEntry::chunk_size(0, 3), 0);
    assert_eq!(FileEntry::chunk_size(usize::MAX, 2), usize::MAX / 2 + 1);
}

#[test]
fn successful_reads_become_entries() {
    let outcomes = vec![
        ReadOutcome { path: String::from("a"), content: Ok(String::from("A")) },
        ReadOutcome { path: String::from("b"), content: Ok(String::from("B")) },
    ];
    let entries = FileEntry::from_read_outcomes(outcomes).unwrap();
    assert_eq!(entries.len(), 2);
    assert_eq!(entries[0].path, "a");
    assert_eq!(entries[0].data, "A");
    assert_eq!(entries[1].path, "b");
    assert_eq!(entries[1].data, "B");
}

#[test]
fn any_failed_read_is_an_error_listing_all_failures() {
    let outcomes = vec![
        ReadOutcome { path: String::from("a"), content: Err(String::from("missing")) },
        ReadOutcome { path: String::from("b"), content: Ok(String::from("B")) },
        ReadOutcome { path: String::from("c"), content: Err(String::from("not UTF-8")) },
    ];
    let error = FileEntry::from_read_outcomes(outcomes).unwrap_err();
    assert_eq!(error, "a: missing\nc: not UTF-8");
    assert!(FileEntry::from_read_outcomes(Vec::new()).unwrap().is_empty());
}

#[test]
fn markdown_section_has_heading_and_body() {
    assert_eq!(markdown_section("src/lib.rs", "fn main() {}"), "# src/lib.rs\nfn main() {}\n");
    assert_eq!(markdown_section("a", ""), "# a\n\n");
}

#[test]
fn string_list_of_empty_strings_reads_nothing() {
    let selected = FileEntry::accepted_paths(None, &FileEntry::non_empty_paths(vec![String::new()]));
    assert!(selected.is_empty());
    assert!(FileEntry::from_read_outcomes(Vec::new()).unwrap().is_empty());
}

#[test]
fn list_reads_give_entries_of_accepted_paths() {
    let filter = Pathfilter::new(vec![String::from("/p")], None);
    let list = vec![String::from("/p/a"), String::from("/q/b")];
    let accepted = FileEntry::accepted_paths(Some(&filter), &list);
    assert_eq!(accepted, vec![String::from("/p/a")]);
    let ok = FileEntry::from_list_reads(
        Some(&filter),
        &list,
        vec![ReadOutcome { path: String::from("/p/a"), content: Ok(String::from("x")) }],
    )
    .unwrap();
    assert_eq!(ok.len(), 1);
    assert_eq!(ok[0].path, "/p/a");
    assert_eq!(ok[0].data, "x");
    let err = FileEntry::from_list_reads(
        Some(&filter),
        &list,
        vec![ReadOutcome { path: String::from("/p/a"), content: Err(String::from("denied")) }],
    )
    .unwrap_err();
    assert_eq!(err, "/p/a: denied");
}
