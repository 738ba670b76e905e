//! Matching the directories a walk found against compiled structural
//! patterns.

use crate::file_pattern::CompiledPattern;
use crate::walk::DirEntry;
use vstd::prelude::*;
use vstd::string::*;

verus! {

/// A directory that fits a pattern: its path, and the position of the pattern
/// in the list the caller supplied.
#[derive(Clone, Debug, PartialEq, Eq, Hash)]
pub struct ScanResult {
    pub path: String,
    pub pattern_index: usize,
}

impl View for ScanResult {
    type V = (Seq<char>, int);

    open spec fn view(&self) -> (Seq<char>, int) {
        (self.path@, self.pattern_index as int)
    }
}

/// The length of `path` once the separators at its end are set aside.
pub open spec fn name_end(path: Seq<char>) -> int
    decreases path.len(),
{
    if path.len() == 0 {
        0
    } else if path.last() == '/' {
        name_end(path.drop_last())
    } else {
        path.len() as int
    }
}

/// Where the component that ends at `end` begins: right behind the nearest
/// separator before `end`, or at the start of the path.
pub open spec fn name_start(path: Seq<char>, end: int) -> int
    decreases end,
{
    if end <= 0 {
        0
    } else if path[end - 1] == '/' {
        end
    } else {
        name_start(path, end - 1)
    }
}

/// The last component of a path: what stands between the last separator that
/// has something other than separators behind it and the separators at the
/// end. It is empty for a path made of separators only.
pub open spec fn basename_of(path: Seq<char>) -> Seq<char> {
    path.subrange(name_start(path, name_end(path)), name_end(path))
}

/// Where the last component begins lies within the path.
proof fn lemma_name_bounds(path: Seq<char>, end: int)
    requires
        0 <= end <= path.len(),
    ensures
        0 <= name_start(path, end) <= end,
        0 <= name_end(path) <= path.len(),
    decreases end, path.len(),
{
    if end > 0 && path[end - 1] != '/' {
        lemma_name_bounds(path, end - 1);
    }
    if path.len() > 0 && path.last() == '/' {
        lemma_name_bounds(path.drop_last(), 0);
    }
}

/// A component without separators keeps its start wherever it is looked for
/// from inside it.
proof fn lemma_start_of_component(path: Seq<char>, begin: int, end: int)
    requires
        0 <= begin <= end <= path.len(),
        forall|k: int| begin <= k < end ==> path[k] != '/',
        begin == 0 || path[begin - 1] == '/',
    ensures
        name_start(path, end) == begin,
    decreases end - begin,
{
    if end > begin {
        lemma_start_of_component(path, begin, end - 1);
    }
}

/// The name of a path is what stands behind its last separator: for a
/// non-empty `name` without separators, the name of `parent/name` is `name`,
/// and so is the name of `name` alone. Separators at the end do not count.
pub proof fn law_basename_is_last_component(parent: Seq<char>, name: Seq<char>, path: Seq<char>)
    requires
        name.len() > 0,
        forall|k: int| 0 <= k < name.len() ==> name[k] != '/',
    ensures
        basename_of(parent + seq!['/'] + name) == name,
        basename_of(name) == name,
        basename_of(path.push('/')) == basename_of(path),
{
    let joined = parent + seq!['/'] + name;
    let begin = parent.len() + 1;
    assert(joined.last() == name.last());
    assert(name_end(joined) == joined.len());
    assert forall|k: int| begin <= k < joined.len() implies joined[k] != '/' by {
        assert(joined[k] == name[k - begin]);
    }
    assert(joined[begin - 1] == '/');
    lemma_start_of_component(joined, begin as int, joined.len() as int);
    assert(joined.subrange(begin as int, joined.len() as int) =~= name);
    assert(name_end(name) == name.len());
    lemma_start_of_component(name, 0, name.len() as int);
    assert(name.subrange(0, name.len() as int) =~= name);
    let longer = path.push('/');
    assert(longer.drop_last() =~= path);
    assert(name_end(longer) == name_end(path));
    lemma_name_bounds(path, path.len() as int);
    lemma_name_bounds(path, name_end(path));
    lemma_same_start(path, longer, name_end(path));
    assert(longer.subrange(name_start(longer, name_end(path)), name_end(path)) =~= path.subrange(
        name_start(path, name_end(path)),
        name_end(path),
    ));
}

/// Where a component begins depends only on what stands before its end.
proof fn lemma_same_start(first: Seq<char>, second: Seq<char>, end: int)
    requires
        0 <= end <= first.len(),
        end <= second.len(),
        forall|k: int| 0 <= k < end ==> first[k] == second[k],
    ensures
        name_start(first, end) == name_start(second, end),
    decreases end,
{
    if end > 0 && first[end - 1] != '/' {
        lemma_same_start(first, second, end - 1);
    }
}

/// The last component of `path`, as the directory's own name.
pub fn basename(path: &str) -> (name: String)
    ensures
        name@ == basename_of(path@),
{
    let length = path.unicode_len();
    let mut start: usize = 0;
    let mut end: usize = 0;
    let mut after_separator = true;
    let mut i: usize = 0;
    proof {
        assert(path@.take(0) =~= Seq::<char>::empty());
    }
    for c in it: path.chars()
        invariant
            it.seq() == path@,
            length == path@.len(),
            i == it.index(),
            start <= end <= i,
            end == name_end(path@.take(i as int)),
            start == name_start(path@, end as int),
            after_separator == (i == 0 || path@[i - 1] == '/'),
            !after_separator ==> end == i,
    {
        proof {
            assert(path@.take(i + 1).drop_last() =~= path@.take(i as int));
            assert(path@.take(i + 1).last() == c);
        }
        if c == '/' {
            after_separator = true;
        } else {
            if after_separator {
                start = i;
            }
            end = i + 1;
            after_separator = false;
            proof {
                reveal_with_fuel(name_start, 2);
            }
        }
        i += 1;
    }
    proof {
        assert(path@.take(length as int) =~= path@);
    }
    String::from_str(path.substring_char(start, end))
}

/// Whether the directory fits the pattern: the pattern accepts the
/// directory's own name (the last component of its path, not the whole
/// path) together with the names of its direct children.
pub open spec fn fits(entry: DirEntry, pattern: CompiledPattern) -> bool {
    pattern@.accepts(
        basename_of(entry.path@),
        entry.dirnames.deep_view(),
        entry.filenames.deep_view(),
    )
}

/// The results for one directory: one for each pattern it fits, in the order
/// of the patterns.
pub open spec fn entry_hits(entry: DirEntry, patterns: Seq<CompiledPattern>) -> Seq<
    (Seq<char>, int),
>
    decreases patterns.len(),
{
    if patterns.len() == 0 {
        Seq::empty()
    } else {
        let earlier = entry_hits(entry, patterns.drop_last());
        if fits(entry, patterns.last()) {
            earlier.push((entry.path@, patterns.len() - 1))
        } else {
            earlier
        }
    }
}

/// The results of a scan: the results for each directory, directory after
/// directory in the order given.
pub open spec fn scan_hits(entries: Seq<DirEntry>, patterns: Seq<CompiledPattern>) -> Seq<
    (Seq<char>, int),
>
    decreases entries.len(),
{
    if entries.len() == 0 {
        Seq::empty()
    } else {
        scan_hits(entries.drop_last(), patterns) + entry_hits(entries.last(), patterns)
    }
}

/// The results as plain data.
pub open spec fn views_of(results: Seq<ScanResult>) -> Seq<(Seq<char>, int)> {
    results.map_values(|result: ScanResult| result@)
}

/// The results for one directory name exactly the patterns it fits.
proof fn lemma_entry_hits(entry: DirEntry, patterns: Seq<CompiledPattern>)
    ensures
        forall|j: int|
            0 <= j < patterns.len() && fits(entry, #[trigger] patterns[j]) ==> entry_hits(
                entry,
                patterns,
            ).contains((entry.path@, j)),
        forall|k: int|
            0 <= k < entry_hits(entry, patterns).len() ==> {
                let hit = #[trigger] entry_hits(entry, patterns)[k];
                &&& hit.0 == entry.path@
                &&& 0 <= hit.1 < patterns.len()
                &&& fits(entry, patterns[hit.1])
            },
    decreases patterns.len(),
{
    if patterns.len() > 0 {
        let fewer = patterns.drop_last();
        lemma_entry_hits(entry, fewer);
        let earlier = entry_hits(entry, fewer);
        let all = entry_hits(entry, patterns);
        assert forall|j: int|
            0 <= j < patterns.len() && fits(entry, #[trigger] patterns[j]) implies all.contains(
            (entry.path@, j),
        ) by {
            if j < fewer.len() {
                assert(fits(entry, fewer[j]));
                let k = choose|k: int| 0 <= k < earlier.len() && earlier[k] == (entry.path@, j);
                assert(all[k] == (entry.path@, j));
            } else {
                assert(all[all.len() - 1] == (entry.path@, j));
            }
        }
        assert forall|k: int| 0 <= k < all.len() implies {
            let hit = #[trigger] all[k];
            &&& hit.0 == entry.path@
            &&& 0 <= hit.1 < patterns.len()
            &&& fits(entry, patterns[hit.1])
        } by {
            if k < earlier.len() {
                let hit = earlier[k];
                assert(fits(entry, fewer[hit.1]));
            }
        }
    }
}

/// A scan reports a pair of directory and pattern exactly when the directory
/// fits the pattern: every fit is reported, whatever else the directory fits,
/// and nothing else is. So a scan in which no directory fits any pattern
/// reports nothing.
pub proof fn law_scan_reports_every_fit(entries: Seq<DirEntry>, patterns: Seq<CompiledPattern>)
    ensures
        forall|i: int, j: int|
            0 <= i < entries.len() && 0 <= j < patterns.len() && fits(
                #[trigger] entries[i],
                #[trigger] patterns[j],
            ) ==> scan_hits(entries, patterns).contains((entries[i].path@, j)),
        forall|k: int|
            0 <= k < scan_hits(entries, patterns).len() ==> exists|i: int|
                {
                    let hit = #[trigger] scan_hits(entries, patterns)[k];
                    &&& 0 <= i < entries.len()
                    &&& hit.0 == (#[trigger] entries[i]).path@
                    &&& 0 <= hit.1 < patterns.len()
                    &&& fits(entries[i], patterns[hit.1])
                },
        (forall|i: int, j: int|
            0 <= i < entries.len() && 0 <= j < patterns.len() ==> !fits(
                #[trigger] entries[i],
                #[trigger] patterns[j],
            )) ==> scan_hits(entries, patterns).len() == 0,
    decreases entries.len(),
{
    let all = scan_hits(entries, patterns);
    if entries.len() > 0 {
        let fewer = entries.drop_last();
        let last = entries.last();
        law_scan_reports_every_fit(fewer, patterns);
        lemma_entry_hits(last, patterns);
        let earlier = scan_hits(fewer, patterns);
        let latest = entry_hits(last, patterns);
        assert forall|i: int, j: int|
            0 <= i < entries.len() && 0 <= j < patterns.len() && fits(
                #[trigger] entries[i],
                #[trigger] patterns[j],
            ) implies all.contains((entries[i].path@, j)) by {
            if i < fewer.len() {
                assert(fits(fewer[i], patterns[j]));
                let k = choose|k: int|
                    0 <= k < earlier.len() && earlier[k] == (entries[i].path@, j);
                assert(all[k] == (entries[i].path@, j));
            } else {
                let k = choose|k: int| 0 <= k < latest.len() && latest[k] == (last.path@, j);
                assert(all[earlier.len() + k] == (last.path@, j));
            }
        }
        assert forall|k: int| 0 <= k < all.len() implies exists|i: int|
            {
                let hit = #[trigger] all[k];
                &&& 0 <= i < entries.len()
                &&& hit.0 == (#[trigger] entries[i]).path@
                &&& 0 <= hit.1 < patterns.len()
                &&& fits(entries[i], patterns[hit.1])
            } by {
            if k < earlier.len() {
                let hit = earlier[k];
                let i = choose|i: int|
                    0 <= i < fewer.len() && hit.0 == (#[trigger] fewer[i]).path@ && 0 <= hit.1
                        < patterns.len() && fits(fewer[i], patterns[hit.1]);
                assert(entries[i] == fewer[i]);
            } else {
                let hit = latest[k - earlier.len()];
                assert(all[k] == hit);
                assert(entries[entries.len() - 1] == last);
            }
        }
        if forall|i: int, j: int|
            0 <= i < entries.len() && 0 <= j < patterns.len() ==> !fits(
                #[trigger] entries[i],
                #[trigger] patterns[j],
            ) {
            if all.len() > 0 {
                let hit = all[0];
                let i = choose|i: int|
                    0 <= i < entries.len() && hit.0 == (#[trigger] entries[i]).path@ && 0 <= hit.1
                        < patterns.len() && fits(entries[i], patterns[hit.1]);
                assert(!fits(entries[i], patterns[hit.1]));
            }
        }
    }
}

/// Matches every directory against every pattern: directories in the order
/// given, and for each directory the patterns in the order given. Each pair
/// that fits yields one result; a directory may yield none, one or several.
pub fn scan_entries(entries: &Vec<DirEntry>, patterns: &Vec<CompiledPattern>) -> (results: Vec<
    ScanResult,
>)
    ensures
        views_of(results@) == scan_hits(entries@, patterns@),
{
    let mut results: Vec<ScanResult> = Vec::new();
    let mut i: usize = 0;
    proof {
        assert(entries@.take(0) =~= Seq::<DirEntry>::empty());
        assert(views_of(results@) =~= scan_hits(entries@.take(0), patterns@));
    }
    while i < entries.len()
        invariant
            i <= entries.len(),
            views_of(results@) == scan_hits(entries@.take(i as int), patterns@),
        decreases entries.len() - i,
    {
        let entry = &entries[i];
        let name = basename(entry.path.as_str());
        let ghost earlier = views_of(results@);
        let mut j: usize = 0;
        proof {
            assert(patterns@.take(0) =~= Seq::<CompiledPattern>::empty());
            assert(views_of(results@) =~= earlier + entry_hits(*entry, patterns@.take(0)));
        }
        while j < patterns.len()
            invariant
                j <= patterns.len(),
                i < entries.len(),
                entry == &entries[i as int],
                name@ == basename_of(entry.path@),
                views_of(results@) == earlier + entry_hits(*entry, patterns@.take(j as int)),
            decreases patterns.len() - j,
        {
            let ghost before = results@;
            proof {
                assert(patterns@.take(j + 1).drop_last() =~= patterns@.take(j as int));
                assert(patterns@.take(j + 1).last() == patterns@[j as int]);
            }
            if patterns[j].matches(
                name.as_str(),
                entry.dirnames.as_slice(),
                entry.filenames.as_slice(),
            ) {
                let result = ScanResult { path: entry.path.clone(), pattern_index: j };
                results.push(result);
                proof {
                    assert(views_of(results@) =~= views_of(before).push(result@));
                    assert(views_of(results@) =~= earlier + entry_hits(
                        *entry,
                        patterns@.take(j + 1),
                    ));
                }
            }
            j += 1;
        }
        proof {
            assert(patterns@.take(patterns.len() as int) =~= patterns@);
            assert(entries@.take(i + 1).drop_last() =~= entries@.take(i as int));
            assert(entries@.take(i + 1).last() == entries@[i as int]);
        }
        i += 1;
    }
    proof {
        assert(entries@.take(entries.len() as int) =~= entries@);
    }
    results
}

} // verus!
