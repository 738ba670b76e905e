use pathvein::file_pattern::{CompiledPattern, FileStructurePattern};
use pathvein::scan::{basename, scan_entries, ScanResult};
use pathvein::walk::{gather, DirEntry, EntryKind, WalkEvent};
use std::collections::HashSet;

fn texts(items: &[&str]) -> Vec<String> {
    items.iter().map(|s| s.to_string()).collect()
}

fn pattern(name: &str, files: &[&str], subdirs: &[&str]) -> CompiledPattern {
    let shape = FileStructurePattern {
        directory_name: name.to_string(),
        files: texts(files),
        directories: subdirs
            .iter()
            .map(|subdir| FileStructurePattern {
                directory_name: subdir.to_string(),
                files: Vec::new(),
                directories: Vec::new(),
                optional_files: Vec::new(),
                optional_directories: Vec::new(),
            })
            .collect(),
        optional_files: Vec::new(),
        optional_directories: Vec::new(),
    };
    match shape.compile() {
        Ok(compiled) => compiled,
        Err(error) => panic!("pattern should compile: {}", error.message()),
    }
}

fn dir(path: &str, dirnames: &[&str], filenames: &[&str]) -> DirEntry {
    DirEntry { path: path.to_string(), dirnames: texts(dirnames), filenames: texts(filenames) }
}

fn hit(path: &str, pattern_index: usize) -> ScanResult {
    ScanResult { path: path.to_string(), pattern_index }
}

#[test]
fn the_basename_is_the_last_component() {
    assert_eq!(basename("root/sub"), "sub");
    assert_eq!(basename("/tmp/work/project"), "project");
    assert_eq!(basename("plain"), "plain");
    assert_eq!(basename("a/b/c.d"), "c.d");
    assert_eq!(basename("./here"), "here");
}

#[test]
fn separators_at_the_end_are_set_aside() {
    assert_eq!(basename("root/sub/"), "sub");
    assert_eq!(basename("root/sub///"), "sub");
    assert_eq!(basename("name/"), "name");
}

#[test]
fn paths_without_a_name_have_an_empty_basename() {
    assert_eq!(basename(""), "");
    assert_eq!(basename("/"), "");
    assert_eq!(basename("///"), "");
}

#[test]
fn the_basename_handles_characters_of_any_width() {
    assert_eq!(basename("données/été"), "été");
    assert_eq!(basename("data/日本語/"), "日本語");
    assert_eq!(basename("/x/a b"), "a b");
}

#[test]
fn a_directory_that_fits_two_patterns_is_reported_twice() {
    let patterns = vec![pattern("*", &["*.json"], &[]), pattern("proj*", &[], &["src"])];
    let entries = vec![dir("/w/project", &["src"], &["package.json"])];
    assert_eq!(scan_entries(&entries, &patterns), vec![hit("/w/project", 0), hit("/w/project", 1)]);
}

#[test]
fn a_tree_without_fitting_directories_gives_no_results() {
    let patterns = vec![pattern("*", &["*.json"], &[]), pattern("proj*", &[], &["src"])];
    let entries = vec![
        dir("/w", &["a", "b"], &["notes.txt"]),
        dir("/w/a", &[], &["main.rs"]),
        dir("/w/b", &["src"], &[]),
    ];
    assert!(scan_entries(&entries, &patterns).is_empty());
}

#[test]
fn nothing_to_scan_or_nothing_to_look_for_gives_no_results() {
    let patterns = vec![pattern("*", &[], &[])];
    assert!(scan_entries(&Vec::new(), &patterns).is_empty());
    assert!(scan_entries(&vec![dir("x", &[], &[])], &Vec::new()).is_empty());
}

#[test]
fn results_follow_the_directories_then_the_patterns() {
    let patterns = vec![
        pattern("*", &["*.rs"], &[]),
        pattern("*", &["*.py"], &[]),
        pattern("*", &[], &[]),
    ];
    let entries = vec![
        dir("/w/b", &[], &["x.py"]),
        dir("/w/a", &[], &["x.rs", "y.py"]),
        dir("/w/c", &[], &[]),
    ];
    assert_eq!(
        scan_entries(&entries, &patterns),
        vec![
            hit("/w/b", 1),
            hit("/w/b", 2),
            hit("/w/a", 0),
            hit("/w/a", 1),
            hit("/w/a", 2),
            hit("/w/c", 2),
        ]
    );
}

#[test]
fn the_name_pattern_is_tested_against_the_basename_only() {
    let patterns = vec![pattern("run_*", &[], &[]), pattern("/data/*", &[], &[])];
    let entries = vec![
        dir("/data/run_1", &[], &[]),
        dir("/run_2/data", &[], &[]),
        dir("/data/run_3/", &[], &[]),
    ];
    assert_eq!(
        scan_entries(&entries, &patterns),
        vec![hit("/data/run_1", 0), hit("/data/run_3/", 0)]
    );
}

#[test]
fn the_same_path_given_twice_is_scanned_twice() {
    let patterns = vec![pattern("*", &[], &[])];
    let entries = vec![dir("d", &[], &[]), dir("d", &[], &[])];
    assert_eq!(scan_entries(&entries, &patterns), vec![hit("d", 0), hit("d", 0)]);
}

#[test]
fn results_are_equal_and_hash_by_path_and_index() {
    assert_eq!(hit("a", 1), hit("a", 1));
    assert_ne!(hit("a", 1), hit("a", 2));
    assert_ne!(hit("a", 1), hit("b", 1));
    let mut seen = HashSet::new();
    seen.insert(hit("a", 1));
    seen.insert(hit("a", 1).clone());
    seen.insert(hit("a", 2));
    assert_eq!(seen.len(), 2);
}

#[test]
fn a_gathered_walk_can_be_scanned() {
    let events = vec![
        WalkEvent::Entry {
            path: "root".to_string(),
            parent: "".to_string(),
            name: "root".to_string(),
            depth: 0,
            kind: EntryKind::Directory,
        },
        WalkEvent::Entry {
            path: "root/a.txt".to_string(),
            parent: "root".to_string(),
            name: "a.txt".to_string(),
            depth: 1,
            kind: EntryKind::File,
        },
        WalkEvent::Entry {
            path: "root/sub".to_string(),
            parent: "root".to_string(),
            name: "sub".to_string(),
            depth: 1,
            kind: EntryKind::Directory,
        },
        WalkEvent::Entry {
            path: "root/sub/b.txt".to_string(),
            parent: "root/sub".to_string(),
            name: "b.txt".to_string(),
            depth: 2,
            kind: EntryKind::File,
        },
    ];
    let mut entries = gather(&events, None);
    entries.sort_by(|a, b| a.path.cmp(&b.path));
    let patterns = vec![pattern("sub", &["b.*"], &[]), pattern("*", &["*.txt"], &["sub"])];
    assert_eq!(scan_entries(&entries, &patterns), vec![hit("root", 1), hit("root/sub", 0)]);
}
