use mark_stager::status::{
    filter_by_paths, has_staged_changes, is_listed_path, StatusEntry, StatusFlags, INDEX_DELETED,
    INDEX_MODIFIED, INDEX_NEW, INDEX_RENAMED, INDEX_TYPECHANGE, WT_DELETED, WT_MODIFIED, WT_NEW,
};

fn entry(path: &str, bits: u32) -> StatusEntry {
    StatusEntry { path: Some(path.to_string()), status: StatusFlags { bits } }
}

fn allow(paths: &[&str]) -> Vec<String> {
    paths.iter().map(|p| p.to_string()).collect()
}

#[test]
fn staged_bits_match_libgit2_layout() {
    assert_eq!(INDEX_NEW, 1 << 0);
    assert_eq!(INDEX_MODIFIED, 1 << 1);
    assert_eq!(INDEX_DELETED, 1 << 2);
    assert_eq!(INDEX_RENAMED, 1 << 3);
    assert_eq!(INDEX_TYPECHANGE, 1 << 4);
    assert_eq!(WT_NEW, 1 << 7);
    assert_eq!(WT_MODIFIED, 1 << 8);
    assert_eq!(WT_DELETED, 1 << 9);
}

#[test]
fn each_index_flag_counts_as_staged() {
    for bits in [INDEX_NEW, INDEX_MODIFIED, INDEX_DELETED, INDEX_RENAMED, INDEX_TYPECHANGE] {
        assert!(StatusFlags { bits }.is_index_status());
        assert!(StatusFlags { bits: bits | WT_MODIFIED }.is_index_status());
    }
}

#[test]
fn working_tree_flags_are_not_staged() {
    assert!(!StatusFlags { bits: 0 }.is_index_status());
    assert!(!StatusFlags { bits: WT_MODIFIED }.is_index_status());
    assert!(!StatusFlags { bits: WT_NEW | WT_DELETED }.is_index_status());
}

#[test]
fn empty_report_has_no_staged_changes() {
    assert!(!has_staged_changes(&[]));
}

#[test]
fn one_staged_entry_makes_the_index_dirty() {
    let report = vec![entry("a", WT_MODIFIED), entry("b", INDEX_NEW), entry("c", WT_NEW)];
    assert!(has_staged_changes(&report));
    let clean = vec![entry("a", WT_MODIFIED), entry("c", WT_NEW)];
    assert!(!has_staged_changes(&clean));
}

#[test]
fn listed_path_needs_exact_match() {
    let a = allow(&["mark1", "dir/mark2"]);
    assert!(is_listed_path(&"mark1".to_string(), &a));
    assert!(is_listed_path(&"dir/mark2".to_string(), &a));
    assert!(!is_listed_path(&"mark".to_string(), &a));
    assert!(!is_listed_path(&"dir".to_string(), &a));
    assert!(!is_listed_path(&"mark1".to_string(), &[]));
}

#[test]
fn filter_keeps_report_order_and_members_only() {
    let report = vec![
        entry("z", WT_MODIFIED),
        entry("other.txt", WT_MODIFIED),
        entry("a", WT_DELETED),
        entry("z", WT_NEW),
    ];
    let got = filter_by_paths(&report, &allow(&["a", "z"]));
    let paths: Vec<String> = got.iter().map(|e| e.path.clone().unwrap()).collect();
    assert_eq!(paths, vec!["z".to_string(), "a".to_string(), "z".to_string()]);
    assert_eq!(got[0].status.bits, WT_MODIFIED);
    assert_eq!(got[1].status.bits, WT_DELETED);
    assert_eq!(got[2].status.bits, WT_NEW);
}

#[test]
fn filter_does_not_duplicate_through_a_repeated_allow_entry() {
    let report = vec![entry("mark1", WT_MODIFIED)];
    let got = filter_by_paths(&report, &allow(&["mark1", "mark1"]));
    assert_eq!(got.len(), 1);
}

#[test]
fn entry_without_path_never_matches() {
    let report = vec![StatusEntry { path: None, status: StatusFlags { bits: WT_MODIFIED } }];
    assert!(filter_by_paths(&report, &allow(&[""])).is_empty());
    assert!(filter_by_paths(&report, &allow(&["mark1"])).is_empty());
}

#[test]
fn copied_entry_keeps_its_fields() {
    let e = entry("mark1", WT_MODIFIED | WT_NEW);
    let c = e.copied();
    assert_eq!(c.path, Some("mark1".to_string()));
    assert_eq!(c.status, e.status);
}
