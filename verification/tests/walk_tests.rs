use pathvein::walk::{gather, plan_walk, select_mode, DirEntry, EntryKind, WalkEvent, WalkMode};

fn entry(path: &str, parent: &str, name: &str, depth: usize, kind: EntryKind) -> WalkEvent {
    WalkEvent::Entry {
        path: path.to_string(),
        parent: parent.to_string(),
        name: name.to_string(),
        depth,
        kind,
    }
}

fn unreadable(path: &str) -> WalkEvent {
    WalkEvent::Unreadable { path: path.to_string() }
}

fn texts(items: &[&str]) -> Vec<String> {
    items.iter().map(|s| s.to_string()).collect()
}

fn sorted(mut entries: Vec<DirEntry>) -> Vec<DirEntry> {
    entries.sort_by(|a, b| a.path.cmp(&b.path));
    entries
}

fn small_tree() -> Vec<WalkEvent> {
    vec![
        entry("root", "", "root", 0, EntryKind::Directory),
        entry("root/a.txt", "root", "a.txt", 1, EntryKind::File),
        entry("root/sub", "root", "sub", 1, EntryKind::Directory),
        entry("root/sub/b.txt", "root/sub", "b.txt", 2, EntryKind::File),
    ]
}

#[test]
fn a_walk_bounded_to_one_or_two_levels_runs_on_one_thread() {
    assert_eq!(select_mode(Some(1)), WalkMode::Sequential);
    assert_eq!(select_mode(Some(2)), WalkMode::Sequential);
    assert_eq!(select_mode(Some(0)), WalkMode::Parallel);
    assert_eq!(select_mode(Some(3)), WalkMode::Parallel);
    assert_eq!(select_mode(Some(1000)), WalkMode::Parallel);
    assert_eq!(select_mode(None), WalkMode::Parallel);
}

#[test]
fn a_plan_never_filters_entries() {
    let plan = plan_walk(Some(2), true);
    assert_eq!(plan.mode, WalkMode::Sequential);
    assert_eq!(plan.max_depth, Some(2));
    assert!(plan.follow_links);
    assert!(!plan.skip_hidden);
    assert!(!plan.honour_ignore_files);
    let plan = plan_walk(None, false);
    assert_eq!(plan.mode, WalkMode::Parallel);
    assert_eq!(plan.max_depth, None);
    assert!(!plan.follow_links);
    assert!(!plan.skip_hidden);
    assert!(!plan.honour_ignore_files);
}

#[test]
fn a_tree_with_one_subdirectory_gives_two_records() {
    let entries = sorted(gather(&small_tree(), None));
    assert_eq!(entries.len(), 2);
    assert_eq!(entries[0].path, "root");
    assert_eq!(entries[0].filenames, texts(&["a.txt"]));
    assert_eq!(entries[0].dirnames, texts(&["sub"]));
    assert_eq!(entries[1].path, "root/sub");
    assert_eq!(entries[1].filenames, texts(&["b.txt"]));
    assert_eq!(entries[1].dirnames, Vec::<String>::new());
}

#[test]
fn the_order_of_the_events_does_not_change_the_records() {
    let mut events = small_tree();
    events.reverse();
    let entries = sorted(gather(&events, None));
    assert_eq!(entries.len(), 2);
    assert_eq!(entries[0].path, "root");
    assert_eq!(entries[0].filenames, texts(&["a.txt"]));
    assert_eq!(entries[0].dirnames, texts(&["sub"]));
    assert_eq!(entries[1].path, "root/sub");
    assert_eq!(entries[1].filenames, texts(&["b.txt"]));
}

#[test]
fn no_events_give_no_records() {
    assert!(gather(&Vec::new(), None).is_empty());
}

#[test]
fn the_starting_point_is_nobodys_child() {
    let events = vec![entry("/tmp/work/root", "/tmp/work", "root", 0, EntryKind::Directory)];
    let entries = gather(&events, None);
    assert_eq!(entries.len(), 1);
    assert_eq!(entries[0].path, "/tmp/work/root");
    assert!(entries[0].dirnames.is_empty());
    assert!(entries[0].filenames.is_empty());
}

#[test]
fn an_empty_directory_gets_an_empty_record() {
    let events = vec![
        entry("root", "", "root", 0, EntryKind::Directory),
        entry("root/empty", "root", "empty", 1, EntryKind::Directory),
    ];
    let entries = sorted(gather(&events, None));
    assert_eq!(entries.len(), 2);
    assert_eq!(entries[0].dirnames, texts(&["empty"]));
    assert_eq!(entries[1].path, "root/empty");
    assert!(entries[1].dirnames.is_empty());
    assert!(entries[1].filenames.is_empty());
}

#[test]
fn children_keep_the_order_in_which_they_were_reported() {
    let events = vec![
        entry("r", "", "r", 0, EntryKind::Directory),
        entry("r/z", "r", "z", 1, EntryKind::File),
        entry("r/d2", "r", "d2", 1, EntryKind::Directory),
        entry("r/a", "r", "a", 1, EntryKind::File),
        entry("r/d1", "r", "d1", 1, EntryKind::Directory),
        entry("r/m", "r", "m", 1, EntryKind::File),
    ];
    let entries = sorted(gather(&events, Some(1)));
    assert_eq!(entries.len(), 1);
    assert_eq!(entries[0].filenames, texts(&["z", "a", "m"]));
    assert_eq!(entries[0].dirnames, texts(&["d2", "d1"]));
}

#[test]
fn a_directory_at_the_depth_bound_is_named_but_not_opened() {
    let events = vec![
        entry("r", "", "r", 0, EntryKind::Directory),
        entry("r/a", "r", "a", 1, EntryKind::Directory),
        entry("r/a/b", "r/a", "b", 2, EntryKind::Directory),
    ];
    let entries = sorted(gather(&events, Some(2)));
    assert_eq!(entries.len(), 2);
    assert_eq!(entries[0].path, "r");
    assert_eq!(entries[1].path, "r/a");
    assert_eq!(entries[1].dirnames, texts(&["b"]));
    let unbounded = sorted(gather(&events, None));
    assert_eq!(unbounded.len(), 3);
    assert_eq!(unbounded[2].path, "r/a/b");
}

#[test]
fn a_walk_of_depth_zero_opens_nothing() {
    let events = vec![entry("r", "", "r", 0, EntryKind::Directory)];
    assert!(gather(&events, Some(0)).is_empty());
}

#[test]
fn entries_that_are_neither_file_nor_directory_are_not_listed() {
    let events = vec![
        entry("r", "", "r", 0, EntryKind::Directory),
        entry("r/link", "r", "link", 1, EntryKind::Other),
        entry("r/f", "r", "f", 1, EntryKind::File),
    ];
    let entries = gather(&events, None);
    assert_eq!(entries.len(), 1);
    assert_eq!(entries[0].filenames, texts(&["f"]));
    assert!(entries[0].dirnames.is_empty());
}

#[test]
fn a_starting_point_that_is_a_file_gives_no_record() {
    let events = vec![entry("notes.txt", "", "notes.txt", 0, EntryKind::File)];
    assert!(gather(&events, None).is_empty());
}

#[test]
fn an_unreadable_directory_is_left_out_and_the_rest_stays() {
    let events = vec![
        entry("r", "", "r", 0, EntryKind::Directory),
        entry("r/ok", "r", "ok", 1, EntryKind::Directory),
        entry("r/locked", "r", "locked", 1, EntryKind::Directory),
        unreadable("r/locked"),
        entry("r/ok/f", "r/ok", "f", 2, EntryKind::File),
        entry("r/g", "r", "g", 1, EntryKind::File),
    ];
    let entries = sorted(gather(&events, None));
    assert_eq!(entries.len(), 2);
    assert_eq!(entries[0].path, "r");
    assert_eq!(entries[0].dirnames, texts(&["ok", "locked"]));
    assert_eq!(entries[0].filenames, texts(&["g"]));
    assert_eq!(entries[1].path, "r/ok");
    assert_eq!(entries[1].filenames, texts(&["f"]));
}

#[test]
fn a_failure_report_may_come_before_the_directory_itself() {
    let events = vec![
        unreadable("r/locked"),
        entry("r", "", "r", 0, EntryKind::Directory),
        entry("r/locked", "r", "locked", 1, EntryKind::Directory),
    ];
    let entries = gather(&events, None);
    assert_eq!(entries.len(), 1);
    assert_eq!(entries[0].path, "r");
    assert_eq!(entries[0].dirnames, texts(&["locked"]));
}

#[test]
fn a_failure_report_for_an_unknown_path_changes_nothing() {
    let mut events = small_tree();
    events.push(unreadable("elsewhere"));
    let entries = sorted(gather(&events, None));
    assert_eq!(entries.len(), 2);
    assert_eq!(entries[0].path, "root");
    assert_eq!(entries[1].path, "root/sub");
}

#[test]
fn every_directory_has_exactly_one_record() {
    let mut events = vec![entry("r", "", "r", 0, EntryKind::Directory)];
    for i in 0..200 {
        let dir = format!("r/d{}", i);
        events.push(entry(&dir, "r", &format!("d{}", i), 1, EntryKind::Directory));
        for j in 0..3 {
            let name = format!("f{}", j);
            events.push(entry(&format!("{}/{}", dir, name), &dir, &name, 2, EntryKind::File));
        }
    }
    let entries = sorted(gather(&events, None));
    assert_eq!(entries.len(), 201);
    for pair in entries.windows(2) {
        assert_ne!(pair[0].path, pair[1].path);
    }
    assert_eq!(entries[0].path, "r");
    assert_eq!(entries[0].dirnames.len(), 200);
    for record in entries.iter().skip(1) {
        assert_eq!(record.filenames, texts(&["f0", "f1", "f2"]));
        assert!(record.dirnames.is_empty());
    }
}
