//! Turning the stream of entries that a filesystem traversal reports into one
//! record per visited directory.
//!
//! The traversal itself touches the disk and lives with the caller. It hands
//! over plain [`WalkEvent`] values, in whatever order its workers produced
//! them; [`gather`] groups them by directory.

use crate::grouping::{
    groups, groups_drain, groups_new, groups_put, groups_take, list_into_vec, list_names, list_new,
    list_push, lists_model, GroupModel, Groups, Lists, ListsModel,
};
use vstd::prelude::*;

verus! {

/// What kind of filesystem object an entry is.
#[derive(Clone, Copy, Debug, PartialEq, Eq, Structural)]
pub enum EntryKind {
    File,
    Directory,
    /// Anything else, such as a symbolic link that is not followed.
    Other,
}

/// How a traversal should be run.
#[derive(Clone, Copy, Debug, PartialEq, Eq, Structural)]
pub enum WalkMode {
    /// One thread; cheaper than starting workers for a shallow walk.
    Sequential,
    /// A pool of workers sharing the tree between them.
    Parallel,
}

/// The settings of one traversal.
#[derive(Clone, Copy, Debug)]
pub struct WalkPlan {
    pub mode: WalkMode,
    pub max_depth: Option<usize>,
    pub follow_links: bool,
    /// Whether entries whose name starts with a dot are left out.
    pub skip_hidden: bool,
    /// Whether ignore files (version control or otherwise) are honoured.
    pub honour_ignore_files: bool,
}

/// One thing a traversal reported.
#[derive(Clone, Debug)]
pub enum WalkEvent {
    /// A filesystem entry. `depth` is 0 for the starting point of the walk,
    /// whose `parent` and `name` are not looked at.
    Entry { path: String, parent: String, name: String, depth: usize, kind: EntryKind },
    /// The contents of `path` could not be read.
    Unreadable { path: String },
}

/// The direct children of one visited directory.
#[derive(Clone, Debug)]
pub struct DirEntry {
    pub path: String,
    pub dirnames: Vec<String>,
    pub filenames: Vec<String>,
}

/// Whether a directory at `depth` has its contents listed under the bound.
pub open spec fn within_depth(depth: usize, max_depth: Option<usize>) -> bool {
    match max_depth {
        None => true,
        Some(bound) => depth < bound,
    }
}

impl WalkEvent {
    /// The event reports a direct child of `dir`.
    pub open spec fn is_child_of(self, dir: Seq<char>) -> bool {
        self matches WalkEvent::Entry { parent, depth, .. } && depth > 0 && parent@ == dir
    }

    /// The event reports a file directly inside `dir`.
    pub open spec fn is_file_in(self, dir: Seq<char>) -> bool {
        self matches WalkEvent::Entry { parent, depth, kind, .. } && depth > 0 && parent@ == dir
            && kind == EntryKind::File
    }

    /// The event reports a subdirectory directly inside `dir`.
    pub open spec fn is_subdir_in(self, dir: Seq<char>) -> bool {
        self matches WalkEvent::Entry { parent, depth, kind, .. } && depth > 0 && parent@ == dir
            && kind == EntryKind::Directory
    }

    /// The event reports `dir` itself as a directory whose contents the walk lists.
    pub open spec fn opens(self, dir: Seq<char>, max_depth: Option<usize>) -> bool {
        self matches WalkEvent::Entry { path, depth, kind, .. } && kind == EntryKind::Directory
            && within_depth(depth, max_depth) && path@ == dir
    }

    /// The event shows that `dir` was visited.
    pub open spec fn reveals(self, dir: Seq<char>, max_depth: Option<usize>) -> bool {
        self.is_child_of(dir) || self.opens(dir, max_depth)
    }

    /// The event says that `dir` could not be read.
    pub open spec fn condemns(self, dir: Seq<char>) -> bool {
        self matches WalkEvent::Unreadable { path } && path@ == dir
    }

    /// The name carried by an entry (empty for a failure report).
    pub open spec fn entry_name(self) -> Seq<char> {
        match self {
            WalkEvent::Entry { name, .. } => name@,
            WalkEvent::Unreadable { .. } => Seq::empty(),
        }
    }
}

/// Some event shows that `dir` was visited.
pub open spec fn revealed(events: Seq<WalkEvent>, max_depth: Option<usize>, dir: Seq<char>) -> bool {
    exists|i: int| 0 <= i < events.len() && (#[trigger] events[i]).reveals(dir, max_depth)
}

/// Some event says that `dir` could not be read.
pub open spec fn condemned(events: Seq<WalkEvent>, dir: Seq<char>) -> bool {
    exists|i: int| 0 <= i < events.len() && (#[trigger] events[i]).condemns(dir)
}

/// `dir` is a directory the walk visited and could read: it gets a record.
pub open spec fn listed(events: Seq<WalkEvent>, max_depth: Option<usize>, dir: Seq<char>) -> bool {
    revealed(events, max_depth, dir) && !condemned(events, dir)
}

/// The names of the files directly inside `dir`, in the order reported.
pub open spec fn files_in(events: Seq<WalkEvent>, dir: Seq<char>) -> Seq<Seq<char>> {
    events.filter(|e: WalkEvent| e.is_file_in(dir)).map_values(|e: WalkEvent| e.entry_name())
}

/// The names of the subdirectories directly inside `dir`, in the order reported.
pub open spec fn dirs_in(events: Seq<WalkEvent>, dir: Seq<char>) -> Seq<Seq<char>> {
    events.filter(|e: WalkEvent| e.is_subdir_in(dir)).map_values(|e: WalkEvent| e.entry_name())
}

/// Some record in `entries` is for `dir`.
pub open spec fn has_path(entries: Seq<DirEntry>, dir: Seq<char>) -> bool {
    exists|k: int| 0 <= k < entries.len() && (#[trigger] entries[k]).path@ == dir
}

/// No two records in `entries` are for the same directory.
pub open spec fn distinct_paths(entries: Seq<DirEntry>) -> bool {
    forall|a: int, b: int|
        0 <= a < b < entries.len() ==> (#[trigger] entries[a]).path@ != (#[trigger] entries[b]).path@
}

/// Chooses how to run a walk: a walk bounded to one or two levels runs on one
/// thread, every other walk on the worker pool.
pub fn select_mode(max_depth: Option<usize>) -> (mode: WalkMode)
    ensures
        mode == WalkMode::Sequential <==> (max_depth == Some(1usize) || max_depth == Some(2usize)),
        mode == WalkMode::Parallel <==> !(max_depth == Some(1usize) || max_depth == Some(2usize)),
{
    match max_depth {
        Some(depth) => if depth == 1 || depth == 2 {
            WalkMode::Sequential
        } else {
            WalkMode::Parallel
        },
        None => WalkMode::Parallel,
    }
}

/// Settles the settings of a walk. The walk is exhaustive: hidden entries are
/// visited and ignore files are never honoured.
pub fn plan_walk(max_depth: Option<usize>, follow_links: bool) -> (plan: WalkPlan)
    ensures
        plan.max_depth == max_depth,
        plan.follow_links == follow_links,
        !plan.skip_hidden,
        !plan.honour_ignore_files,
        plan.mode == WalkMode::Sequential <==> (max_depth == Some(1usize) || max_depth == Some(
            2usize,
        )),
        plan.mode == WalkMode::Parallel <==> !(max_depth == Some(1usize) || max_depth == Some(
            2usize,
        )),
{
    WalkPlan {
        mode: select_mode(max_depth),
        max_depth,
        follow_links,
        skip_hidden: false,
        honour_ignore_files: false,
    }
}

/// The lists a model holds for `key`, or two empty lists when it holds none.
pub open spec fn lists_at(model: GroupModel, key: Seq<char>) -> ListsModel {
    if model.contains_key(key) {
        model[key]
    } else {
        (Seq::empty(), Seq::empty())
    }
}

/// The lists of a directory once a child of the given kind and name is added.
pub open spec fn with_child(lists: ListsModel, name: Seq<char>, kind: EntryKind) -> ListsModel {
    match kind {
        EntryKind::File => (lists.0.push(name), lists.1),
        EntryKind::Directory => (lists.0, lists.1.push(name)),
        EntryKind::Other => lists,
    }
}

/// Takes the lists of `key` out of the map, or makes empty ones.
fn take_or_empty(map: &mut Groups, key: &str) -> (lists: Lists)
    ensures
        groups(*final(map)) == groups(*old(map)).remove(key@),
        lists_model(lists) == lists_at(groups(*old(map)), key@),
{
    match groups_take(map, key) {
        Some(lists) => lists,
        None => (list_new(), list_new()),
    }
}

/// Records one child under its parent directory, creating the parent's lists
/// on first sight.
fn add_child(map: &mut Groups, parent: &String, name: &String, kind: EntryKind)
    ensures
        groups(*final(map)) == groups(*old(map)).insert(
            parent@,
            with_child(lists_at(groups(*old(map)), parent@), name@, kind),
        ),
{
    let (mut files, mut dirs) = take_or_empty(map, parent.as_str());
    match kind {
        EntryKind::File => { list_push(&mut files, name.clone()); },
        EntryKind::Directory => { list_push(&mut dirs, name.clone()); },
        EntryKind::Other => {},
    }
    groups_put(map, parent.clone(), (files, dirs));
    assert(groups(*map) =~= groups(*old(map)).insert(
        parent@,
        with_child(lists_at(groups(*old(map)), parent@), name@, kind),
    ));
}

/// Makes sure the map holds lists for `path`, leaving lists it already holds
/// as they are.
fn open_dir(map: &mut Groups, path: &String)
    ensures
        groups(*final(map)) == groups(*old(map)).insert(path@, lists_at(groups(*old(map)), path@)),
{
    let lists = take_or_empty(map, path.as_str());
    groups_put(map, path.clone(), lists);
    assert(groups(*map) =~= groups(*old(map)).insert(path@, lists_at(groups(*old(map)), path@)));
}

/// The map holds exactly what `events` report: a key for every directory they
/// reveal, with its children in the order reported.
pub open spec fn records(model: GroupModel, events: Seq<WalkEvent>, max_depth: Option<usize>) -> bool {
    &&& forall|dir: Seq<char>| #[trigger]
        model.contains_key(dir) <==> revealed(events, max_depth, dir)
    &&& forall|dir: Seq<char>| #[trigger]
        model.contains_key(dir) ==> model[dir] == (files_in(events, dir), dirs_in(events, dir))
}

/// How the children of `dir` and its being revealed change when one more event
/// is taken into account.
proof fn lemma_one_more_event(
    events: Seq<WalkEvent>,
    i: int,
    max_depth: Option<usize>,
    dir: Seq<char>,
)
    requires
        0 <= i < events.len(),
    ensures
        files_in(events.take(i + 1), dir) == if events[i].is_file_in(dir) {
            files_in(events.take(i), dir).push(events[i].entry_name())
        } else {
            files_in(events.take(i), dir)
        },
        dirs_in(events.take(i + 1), dir) == if events[i].is_subdir_in(dir) {
            dirs_in(events.take(i), dir).push(events[i].entry_name())
        } else {
            dirs_in(events.take(i), dir)
        },
        revealed(events.take(i + 1), max_depth, dir) <==> (revealed(events.take(i), max_depth, dir)
            || events[i].reveals(dir, max_depth)),
        condemned(events.take(i + 1), dir) <==> (condemned(events.take(i), dir)
            || events[i].condemns(dir)),
{
    let before = events.take(i);
    let after = events.take(i + 1);
    let e = events[i];
    assert(after =~= before.push(e));
    let is_file = |e: WalkEvent| e.is_file_in(dir);
    let is_subdir = |e: WalkEvent| e.is_subdir_in(dir);
    let name_of = |e: WalkEvent| e.entry_name();
    before.lemma_filter_push(e, is_file);
    before.lemma_filter_push(e, is_subdir);
    if e.is_file_in(dir) {
        assert(before.filter(is_file).push(e).map_values(name_of) =~= before.filter(
            is_file,
        ).map_values(name_of).push(e.entry_name()));
    }
    if e.is_subdir_in(dir) {
        assert(before.filter(is_subdir).push(e).map_values(name_of) =~= before.filter(
            is_subdir,
        ).map_values(name_of).push(e.entry_name()));
    }
    if revealed(after, max_depth, dir) {
        let j = choose|j: int| 0 <= j < after.len() && (#[trigger] after[j]).reveals(dir, max_depth);
        if j < i {
            assert(before[j].reveals(dir, max_depth));
        }
    }
    if revealed(before, max_depth, dir) {
        let j = choose|j: int|
            0 <= j < before.len() && (#[trigger] before[j]).reveals(dir, max_depth);
        assert(after[j].reveals(dir, max_depth));
    }
    if e.reveals(dir, max_depth) {
        assert(after[i].reveals(dir, max_depth));
    }
    if condemned(after, dir) {
        let j = choose|j: int| 0 <= j < after.len() && (#[trigger] after[j]).condemns(dir);
        if j < i {
            assert(before[j].condemns(dir));
        }
    }
    if condemned(before, dir) {
        let j = choose|j: int| 0 <= j < before.len() && (#[trigger] before[j]).condemns(dir);
        assert(after[j].condemns(dir));
    }
    if e.condemns(dir) {
        assert(after[i].condemns(dir));
    }
}

/// A report that one directory could not be read changes nothing for any
/// other directory: whether it gets a record and what the record holds stay
/// the same wherever the report arrives among the events.
pub proof fn law_unreadable_is_contained(
    events: Seq<WalkEvent>,
    report: WalkEvent,
    at: int,
    max_depth: Option<usize>,
    dir: Seq<char>,
)
    requires
        0 <= at <= events.len(),
        report is Unreadable,
        !report.condemns(dir),
    ensures
        listed(events.insert(at, report), max_depth, dir) <==> listed(events, max_depth, dir),
        files_in(events.insert(at, report), dir) == files_in(events, dir),
        dirs_in(events.insert(at, report), dir) == dirs_in(events, dir),
{
    let longer = events.insert(at, report);
    let head = events.take(at);
    let tail = events.skip(at);
    let is_file = |e: WalkEvent| e.is_file_in(dir);
    let is_subdir = |e: WalkEvent| e.is_subdir_in(dir);
    assert(longer =~= head.push(report) + tail);
    assert(events =~= head + tail);
    head.lemma_filter_push(report, is_file);
    head.lemma_filter_push(report, is_subdir);
    Seq::filter_distributes_over_add(head.push(report), tail, is_file);
    Seq::filter_distributes_over_add(head, tail, is_file);
    Seq::filter_distributes_over_add(head.push(report), tail, is_subdir);
    Seq::filter_distributes_over_add(head, tail, is_subdir);
    assert forall|i: int| 0 <= i < events.len() implies events[i] == longer[if i < at {
        i
    } else {
        i + 1
    }] by {}
    if revealed(events, max_depth, dir) {
        let i = choose|i: int| 0 <= i < events.len() && (#[trigger] events[i]).reveals(dir, max_depth);
        let j = if i < at {
            i
        } else {
            i + 1
        };
        assert(longer[j].reveals(dir, max_depth));
    }
    if revealed(longer, max_depth, dir) {
        let j = choose|j: int| 0 <= j < longer.len() && (#[trigger] longer[j]).reveals(dir, max_depth);
        let i = if j < at {
            j
        } else {
            j - 1
        };
        assert(events[i].reveals(dir, max_depth));
    }
    if condemned(events, dir) {
        let i = choose|i: int| 0 <= i < events.len() && (#[trigger] events[i]).condemns(dir);
        let j = if i < at {
            i
        } else {
            i + 1
        };
        assert(longer[j].condemns(dir));
    }
    if condemned(longer, dir) {
        let j = choose|j: int| 0 <= j < longer.len() && (#[trigger] longer[j]).condemns(dir);
        let i = if j < at {
            j
        } else {
            j - 1
        };
        assert(events[i].condemns(dir));
    }
}

/// Takes one event into the map: a child goes under its parent, and a
/// directory whose contents the walk lists gets lists of its own.
fn record(map: &mut Groups, events: &Vec<WalkEvent>, i: usize, max_depth: Option<usize>)
    requires
        i < events.len(),
        records(groups(*old(map)), events@.take(i as int), max_depth),
    ensures
        records(groups(*final(map)), events@.take(i + 1), max_depth),
{
    let ghost before = groups(*map);
    match &events[i] {
        WalkEvent::Entry { path, parent, name, depth, kind } => {
            if *depth > 0 {
                add_child(map, parent, name, *kind);
            }
            let ghost middle = groups(*map);
            let opens = match kind {
                EntryKind::Directory => match max_depth {
                    None => true,
                    Some(bound) => *depth < bound,
                },
                _ => false,
            };
            if opens {
                open_dir(map, path);
            }
            proof {
                let after = groups(*map);
                let e = events@[i as int];
                assert forall|dir: Seq<char>|
                    (#[trigger] after.contains_key(dir) <==> revealed(
                        events@.take(i + 1),
                        max_depth,
                        dir,
                    )) && (after.contains_key(dir) ==> after[dir] == (
                        files_in(events@.take(i + 1), dir),
                        dirs_in(events@.take(i + 1), dir),
                    )) by {
                    lemma_one_more_event(events@, i as int, max_depth, dir);
                    assert(before.contains_key(dir) <==> revealed(
                        events@.take(i as int),
                        max_depth,
                        dir,
                    ));
                    if !before.contains_key(dir) {
                        // nothing was reported for `dir` so far
                        let is_file = |e: WalkEvent| e.is_file_in(dir);
                        let is_subdir = |e: WalkEvent| e.is_subdir_in(dir);
                        let seen = events@.take(i as int);
                        assert forall|j: int| 0 <= j < seen.len() implies !is_file(
                            #[trigger] seen[j],
                        ) && !is_subdir(seen[j]) by {
                            if seen[j].is_child_of(dir) {
                                assert(seen[j].reveals(dir, max_depth));
                            }
                        }
                        seen.lemma_all_neg_filter_empty(is_file);
                        seen.lemma_all_neg_filter_empty(is_subdir);
                        assert(files_in(seen, dir) =~= Seq::<Seq<char>>::empty());
                        assert(dirs_in(seen, dir) =~= Seq::<Seq<char>>::empty());
                    }
                }
            }
        },
        WalkEvent::Unreadable { .. } => {
            proof {
                assert forall|dir: Seq<char>|
                    (#[trigger] before.contains_key(dir) <==> revealed(
                        events@.take(i + 1),
                        max_depth,
                        dir,
                    )) && (before.contains_key(dir) ==> before[dir] == (
                        files_in(events@.take(i + 1), dir),
                        dirs_in(events@.take(i + 1), dir),
                    )) by {
                    lemma_one_more_event(events@, i as int, max_depth, dir);
                }
            }
        },
    }
}

/// The map holds what `events` report, less the directories that one of the
/// first `checked` events says could not be read.
pub open spec fn purged(
    model: GroupModel,
    events: Seq<WalkEvent>,
    max_depth: Option<usize>,
    checked: int,
) -> bool {
    &&& forall|dir: Seq<char>| #[trigger]
        model.contains_key(dir) <==> (revealed(events, max_depth, dir) && !condemned(
            events.take(checked),
            dir,
        ))
    &&& forall|dir: Seq<char>| #[trigger]
        model.contains_key(dir) ==> model[dir] == (files_in(events, dir), dirs_in(events, dir))
}

/// Drops from the map the directory that event `i` reports as unreadable, if
/// it reports one.
fn purge(map: &mut Groups, events: &Vec<WalkEvent>, i: usize, max_depth: Option<usize>)
    requires
        i < events.len(),
        purged(groups(*old(map)), events@, max_depth, i as int),
    ensures
        purged(groups(*final(map)), events@, max_depth, i + 1),
{
    let ghost before = groups(*map);
    match &events[i] {
        WalkEvent::Unreadable { path } => {
            let _ = groups_take(map, path.as_str());
        },
        WalkEvent::Entry { .. } => {},
    }
    proof {
        let after = groups(*map);
        assert forall|dir: Seq<char>|
            (#[trigger] after.contains_key(dir) <==> (revealed(events@, max_depth, dir)
                && !condemned(events@.take(i + 1), dir))) && (after.contains_key(dir)
                ==> after[dir] == (files_in(events@, dir), dirs_in(events@, dir))) by {
            lemma_one_more_event(events@, i as int, max_depth, dir);
            assert(before.contains_key(dir) <==> (revealed(events@, max_depth, dir) && !condemned(
                events@.take(i as int),
                dir,
            )));
        }
    }
}

/// Groups the events of one walk into a record per visited directory.
///
/// A directory gets a record when some event shows that the walk visited it
/// (it was reported as a directory within the depth bound, or one of its
/// children was reported) and no event says that it could not be read. Its
/// record holds the names of the files and of the subdirectories reported
/// directly inside it, each in the order reported. The starting point of the
/// walk (depth 0) is nobody's child. The order of the records is not fixed.
pub fn gather(events: &Vec<WalkEvent>, max_depth: Option<usize>) -> (entries: Vec<DirEntry>)
    ensures
        distinct_paths(entries@),
        forall|dir: Seq<char>| listed(events@, max_depth, dir) <==> has_path(entries@, dir),
        forall|k: int|
            0 <= k < entries.len() ==> (#[trigger] entries[k]).filenames.deep_view() == files_in(
                events@,
                entries[k].path@,
            ) && entries[k].dirnames.deep_view() == dirs_in(events@, entries[k].path@),
{
    let mut map = groups_new();
    let mut i: usize = 0;
    proof {
        assert(events@.take(0) =~= Seq::<WalkEvent>::empty());
    }
    while i < events.len()
        invariant
            i <= events.len(),
            records(groups(map), events@.take(i as int), max_depth),
        decreases events.len() - i,
    {
        record(&mut map, events, i, max_depth);
        i += 1;
    }
    proof {
        assert(events@.take(events.len() as int) =~= events@);
        assert(events@.take(0) =~= Seq::<WalkEvent>::empty());
    }
    let mut j: usize = 0;
    while j < events.len()
        invariant
            j <= events.len(),
            purged(groups(map), events@, max_depth, j as int),
        decreases events.len() - j,
    {
        purge(&mut map, events, j, max_depth);
        j += 1;
    }
    proof {
        assert(events@.take(events.len() as int) =~= events@);
    }
    let ghost model = groups(map);
    let mut items = groups_drain(map);
    let ghost all = items@;
    let mut entries: Vec<DirEntry> = Vec::new();
    while items.len() > 0
        invariant
            items@ == all.take(items.len() as int),
            items.len() <= all.len(),
            entries.len() == all.len() - items.len(),
            forall|k: int|
                0 <= k < entries.len() ==> {
                    let from = all[all.len() - 1 - k];
                    &&& (#[trigger] entries[k]).path@ == from.0@
                    &&& entries[k].filenames.deep_view() == list_names(from.1.0)
                    &&& entries[k].dirnames.deep_view() == list_names(from.1.1)
                },
        decreases items.len(),
    {
        let ghost n = items.len();
        let item = items.pop().unwrap();
        let (path, lists) = item;
        let (files, dirs) = lists;
        let entry = DirEntry {
            path,
            dirnames: list_into_vec(dirs),
            filenames: list_into_vec(files),
        };
        entries.push(entry);
        proof {
            assert(items@ =~= all.take(items.len() as int));
            assert(item == all[n - 1]);
        }
    }
    proof {
        let n = all.len() as int;
        assert forall|dir: Seq<char>| listed(events@, max_depth, dir) implies has_path(
            entries@,
            dir,
        ) by {
            assert(model.contains_key(dir));
            let k = choose|k: int| 0 <= k < all.len() && (#[trigger] all[k]).0@ == dir;
            assert(entries[n - 1 - k].path@ == dir);
        }
        assert forall|dir: Seq<char>| has_path(entries@, dir) implies listed(
            events@,
            max_depth,
            dir,
        ) by {
            let k = choose|k: int| 0 <= k < entries.len() && (#[trigger] entries[k]).path@ == dir;
            assert(model.contains_key(all[n - 1 - k].0@));
        }
        assert forall|k: int| 0 <= k < entries.len() implies (#[trigger] entries[k]).filenames.deep_view()
            == files_in(events@, entries[k].path@) && entries[k].dirnames.deep_view() == dirs_in(
            events@,
            entries[k].path@,
        ) by {
            assert(model.contains_key(all[n - 1 - k].0@));
        }
        assert forall|a: int, b: int| 0 <= a < b < entries.len() implies (#[trigger] entries[a]).path@
            != (#[trigger] entries[b]).path@ by {
            assert(all[n - 1 - b].0@ != all[n - 1 - a].0@);
        }
    }
    entries
}

} // verus!
