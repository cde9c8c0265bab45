//! Freshness: which files have changed since they were indexed.

use crate::error::StorageError;
use crate::filemeta;
use crate::filemeta::{read_filemeta, FileState, StateView};
use crate::sorting;
use crate::sorting::sort_texts;
use crate::text;
use crate::text::{chars_of, lossy_text, string_of, text_set, trim};
use vstd::hash_map::StringHashMap;
use vstd::hash_set::StringHashSet;
use vstd::prelude::*;

verus! {

/// Result of a freshness check.
#[derive(Debug)]
pub struct FreshnessReport {
    /// Paths whose modification time or size differ.
    pub changed: Vec<String>,
    /// Paths in the index but no longer on disk.
    pub deleted: Vec<String>,
    /// Paths on disk but not in the index, but for those that were skipped when it was
    /// written and have not changed since.
    pub added: Vec<String>,
    /// True if nothing changed.
    pub is_fresh: bool,
    /// Number of files in the index.
    pub total_indexed: usize,
}

/// A file as it was found on disk: its path relative to the root, and its
/// modification time and size where they could be read.
#[derive(Debug)]
pub struct CurrentFile {
    pub path: String,
    pub stat: Option<(u64, u64)>,
}

/// A [`CurrentFile`] with its path as text.
pub struct CurrentView {
    pub path: Seq<char>,
    pub stat: Option<(u64, u64)>,
}

impl View for CurrentFile {
    type V = CurrentView;

    open spec fn view(&self) -> CurrentView {
        CurrentView { path: self.path@, stat: self.stat }
    }
}

/// The models of files on disk.
pub open spec fn current_views(current: Seq<CurrentFile>) -> Seq<CurrentView> {
    current.map_values(|c: CurrentFile| c@)
}

/// Modification times and sizes by path. Where a path occurs twice, the last file
/// counts.
pub open spec fn on_disk(current: Seq<CurrentView>) -> Map<Seq<char>, Option<(u64, u64)>>
    decreases current.len(),
{
    if current.len() == 0 {
        Map::empty()
    } else {
        on_disk(current.drop_last()).insert(current.last().path, current.last().stat)
    }
}

/// What has become of an indexed file.
#[derive(PartialEq, Eq, Structural)]
pub enum Verdict {
    Unchanged,
    Changed,
    Deleted,
}

/// An indexed file is deleted where it is not on disk or cannot be looked at, and
/// changed where its modification time or its size is another.
pub open spec fn verdict(state: StateView, disk: Map<Seq<char>, Option<(u64, u64)>>) -> Verdict {
    if !disk.dom().contains(state.path) {
        Verdict::Deleted
    } else {
        match disk[state.path] {
            None => Verdict::Deleted,
            Some((mtime, size)) => if mtime != state.mtime || size != state.size {
                Verdict::Changed
            } else {
                Verdict::Unchanged
            },
        }
    }
}

/// The paths of the indexed files with a verdict, in the order of the index.
pub open spec fn paths_with(
    stored: Seq<StateView>,
    disk: Map<Seq<char>, Option<(u64, u64)>>,
    wanted: Verdict,
) -> Seq<Seq<char>>
    decreases stored.len(),
{
    if stored.len() == 0 {
        Seq::empty()
    } else if verdict(stored.last(), disk) == wanted {
        paths_with(stored.drop_last(), disk, wanted).push(stored.last().path)
    } else {
        paths_with(stored.drop_last(), disk, wanted)
    }
}

/// Whether a path is among the indexed files.
pub open spec fn has_path(stored: Seq<StateView>, path: Seq<char>) -> bool {
    exists|i: int| 0 <= i < stored.len() && (#[trigger] stored[i]).path == path
}

/// Whether a path is among the skipped files, as it is on disk.
pub open spec fn still_skipped(
    skipped: Seq<StateView>,
    disk: Map<Seq<char>, Option<(u64, u64)>>,
    path: Seq<char>,
) -> bool {
    exists|i: int|
        0 <= i < skipped.len() && (#[trigger] skipped[i]).path == path && verdict(skipped[i], disk)
            == Verdict::Unchanged
}

/// Whether a report is that of indexed and of skipped files against files on disk: the
/// changed and the deleted paths are sorted, and so are the added ones, each of them
/// once.
pub open spec fn reports(
    report: FreshnessReport,
    stored: Seq<StateView>,
    skipped: Seq<StateView>,
    current: Seq<CurrentView>,
) -> bool {
    let disk = on_disk(current);
    let added = text::texts(report.added@);
    &&& sorting::sorted_copy(text::texts(report.changed@), paths_with(stored, disk, Verdict::Changed))
    &&& sorting::sorted_copy(text::texts(report.deleted@), paths_with(stored, disk, Verdict::Deleted))
    &&& sorting::in_order(added)
    &&& added.no_duplicates()
    &&& forall|path: Seq<char>|
        #[trigger] added.contains(path) <==> disk.dom().contains(path) && !has_path(stored, path) && !still_skipped(
            skipped,
            disk,
            path,
        )
    &&& report.is_fresh == (report.changed@.len() == 0 && report.deleted@.len() == 0 && report.added@.len() == 0)
    &&& report.total_indexed == stored.len()
}

/// Gathers the files on disk by path.
fn disk_map(current: &[CurrentFile]) -> (disk: StringHashMap<Option<(u64, u64)>>)
    ensures
        disk@ == on_disk(current_views(current@)),
{
    let mut disk: StringHashMap<Option<(u64, u64)>> = StringHashMap::new();
    let ghost all = current_views(current@);
    let mut i: usize = 0;
    while i < current.len()
        invariant
            i <= current@.len(),
            all == current_views(current@),
            disk@ == on_disk(all.take(i as int)),
        decreases current@.len() - i,
    {
        disk.insert(current[i].path.clone(), current[i].stat);
        proof {
            assert(all.take(i + 1).drop_last() =~= all.take(i as int));
            assert(all.take(i + 1).last() == current@[i as int]@);
        }
        i += 1;
    }
    assert(all.take(i as int) =~= all);
    disk
}

/// What has become of one indexed file.
fn judge(state: &FileState, disk: &StringHashMap<Option<(u64, u64)>>) -> (v: Verdict)
    ensures
        v == verdict(state@, disk@),
{
    match disk.get(state.path.as_str()) {
        None => Verdict::Deleted,
        Some(stat) => match stat {
            None => Verdict::Deleted,
            Some((mtime, size)) => {
                if *mtime != state.mtime || *size != state.size {
                    Verdict::Changed
                } else {
                    Verdict::Unchanged
                }
            },
        },
    }
}

/// The paths of indexed files.
fn stored_paths(stored: &Vec<FileState>) -> (known: StringHashSet)
    ensures
        forall|path: Seq<char>| #[trigger] known@.contains(path) <==> has_path(filemeta::state_views(stored@), path),
{
    let ghost states = filemeta::state_views(stored@);
    let mut known: StringHashSet = StringHashSet::new();
    let mut i: usize = 0;
    while i < stored.len()
        invariant
            i <= stored@.len(),
            states == filemeta::state_views(stored@),
            forall|path: Seq<char>| #[trigger] known@.contains(path) <==> has_path(states.take(i as int), path),
        decreases stored@.len() - i,
    {
        known.insert(stored[i].path.clone());
        proof {
            let now = states.take(i + 1);
            let earlier = states.take(i as int);
            assert forall|path: Seq<char>| #[trigger] known@.contains(path) <==> has_path(now, path) by {
                assert(now[i as int].path == stored@[i as int].path@);
                if has_path(now, path) {
                    let k = choose|k: int| 0 <= k < now.len() && (#[trigger] now[k]).path == path;
                    if k < i {
                        assert(earlier[k].path == path);
                    }
                }
                if has_path(earlier, path) {
                    let k = choose|k: int| 0 <= k < earlier.len() && (#[trigger] earlier[k]).path == path;
                    assert(now[k].path == path);
                }
            }
        }
        i += 1;
    }
    assert(states.take(i as int) =~= states);
    known
}

/// Adds the paths of the skipped files that have not changed.
fn add_skipped(known: &mut StringHashSet, skipped: &Vec<FileState>, disk: &StringHashMap<Option<(u64, u64)>>)
    ensures
        forall|path: Seq<char>|
            #[trigger] final(known)@.contains(path) <==> old(known)@.contains(path) || still_skipped(
                filemeta::state_views(skipped@),
                disk@,
                path,
            ),
{
    let ghost states = filemeta::state_views(skipped@);
    let ghost first = known@;
    let mut i: usize = 0;
    while i < skipped.len()
        invariant
            i <= skipped@.len(),
            first == old(known)@,
            states == filemeta::state_views(skipped@),
            forall|path: Seq<char>|
                #[trigger] known@.contains(path) <==> first.contains(path) || still_skipped(
                    states.take(i as int),
                    disk@,
                    path,
                ),
        decreases skipped@.len() - i,
    {
        let ghost now = states.take(i + 1);
        let ghost earlier = states.take(i as int);
        let ghost before = known@;
        let verdict: Verdict = judge(&skipped[i], disk);
        if verdict == Verdict::Unchanged {
            known.insert(skipped[i].path.clone());
        }
        proof {
            assert(now[i as int] == skipped@[i as int]@);
            assert forall|path: Seq<char>| #[trigger] known@.contains(path) <==> first.contains(path) || still_skipped(
                now,
                disk@,
                path,
            ) by {
                if still_skipped(now, disk@, path) {
                    let k = choose|k: int|
                        0 <= k < now.len() && (#[trigger] now[k]).path == path && self::verdict(now[k], disk@)
                            == Verdict::Unchanged;
                    if k < i {
                        assert(earlier[k] == now[k]);
                        assert(before.contains(path));
                    }
                }
                if still_skipped(earlier, disk@, path) {
                    let k = choose|k: int|
                        0 <= k < earlier.len() && (#[trigger] earlier[k]).path == path && self::verdict(
                            earlier[k],
                            disk@,
                        ) == Verdict::Unchanged;
                    assert(now[k] == earlier[k]);
                }
                assert(before.contains(path) <==> first.contains(path) || still_skipped(earlier, disk@, path));
            }
        }
        i += 1;
    }
    assert(states.take(i as int) =~= states);
}

/// The paths on disk that are not known, each once, in the order of the walk.
fn new_paths(known: StringHashSet, current: &[CurrentFile]) -> (added: Vec<String>)
    ensures
        text::texts(added@).no_duplicates(),
        forall|path: Seq<char>|
            #[trigger] text::texts(added@).contains(path) <==> on_disk(current_views(current@)).dom().contains(path)
                && !known@.contains(path),
{
    let ghost all = current_views(current@);
    let ghost old_paths = known@;
    let mut seen = known;
    let mut added: Vec<String> = Vec::new();
    let mut j: usize = 0;
    while j < current.len()
        invariant
            j <= current@.len(),
            all == current_views(current@),
            forall|path: Seq<char>|
                #[trigger] seen@.contains(path) <==> old_paths.contains(path) || on_disk(
                    all.take(j as int),
                ).dom().contains(path),
            text::texts(added@).no_duplicates(),
            forall|path: Seq<char>|
                #[trigger] text::texts(added@).contains(path) <==> on_disk(all.take(j as int)).dom().contains(path)
                    && !old_paths.contains(path),
        decreases current@.len() - j,
    {
        let ghost before = text::texts(added@);
        let ghost path = current@[j as int].path@;
        proof {
            assert(all.take(j + 1).drop_last() =~= all.take(j as int));
            assert(all.take(j + 1).last() == current@[j as int]@);
        }
        let fresh: bool = seen.insert(current[j].path.clone());
        if fresh {
            added.push(current[j].path.clone());
            proof {
                assert(text::texts(added@) =~= before.push(path));
                assert(!before.contains(path));
                assert forall|p: Seq<char>| #[trigger] text::texts(added@).contains(p) <==> before.contains(p) || p
                    == path by {
                    text::lemma_push_contains(before, path, p);
                }
                lemma_push_distinct(before, path);
            }
        }
        j += 1;
    }
    assert(all.take(j as int) =~= all);
    added
}

proof fn lemma_push_distinct(s: Seq<Seq<char>>, x: Seq<char>)
    requires
        s.no_duplicates(),
        !s.contains(x),
    ensures
        s.push(x).no_duplicates(),
{
    let t = s.push(x);
    assert forall|i: int, j: int| 0 <= i < t.len() && 0 <= j < t.len() && i != j implies t[i] != t[j] by {
        if i < s.len() && j < s.len() {
        } else if i < s.len() {
            assert(s.contains(s[i]));
        } else {
            assert(s.contains(s[j]));
        }
    }
}

/// Bytes that may be missing.
pub open spec fn optional_bytes(bytes: Option<&[u8]>) -> Option<Seq<u8>> {
    match bytes {
        Some(b) => Some(b@),
        None => None,
    }
}

/// The states that are recorded, none where nothing was written.
pub open spec fn recorded(filemeta: Option<Seq<u8>>) -> Result<Seq<StateView>, StorageError> {
    match filemeta {
        Some(bytes) => filemeta::read_filemeta_bytes(bytes),
        None => Ok(Seq::empty()),
    }
}

/// Compares the stored metadata of the indexed files, and of those that were skipped,
/// with the files on disk.
pub fn check_freshness(filemeta: &[u8], skipped: Option<&[u8]>, current: &[CurrentFile]) -> (r: Result<
    FreshnessReport,
    StorageError,
>)
    ensures
        match filemeta::read_filemeta_bytes(filemeta@) {
            Err(e) => r == Err::<FreshnessReport, StorageError>(e),
            Ok(stored) => match recorded(optional_bytes(skipped)) {
                Err(e) => r == Err::<FreshnessReport, StorageError>(e),
                Ok(left_out) => r is Ok && reports(r->Ok_0, stored, left_out, current_views(current@)),
            },
        },
{
    let stored = match read_filemeta(filemeta) {
        Ok(stored) => stored,
        Err(e) => {
            return Err(e);
        },
    };
    let left_out: Vec<FileState> = match skipped {
        Some(bytes) => match read_filemeta(bytes) {
            Ok(states) => states,
            Err(e) => {
                return Err(e);
            },
        },
        None => Vec::new(),
    };
    let ghost skips = filemeta::state_views(left_out@);
    assert(skips =~= recorded(optional_bytes(skipped))->Ok_0);
    let ghost states = filemeta::state_views(stored@);
    let disk = disk_map(current);
    let mut changed: Vec<String> = Vec::new();
    let mut deleted: Vec<String> = Vec::new();
    let mut i: usize = 0;
    assert(text::texts(changed@) =~= Seq::<Seq<char>>::empty());
    assert(text::texts(deleted@) =~= Seq::<Seq<char>>::empty());
    while i < stored.len()
        invariant
            i <= stored@.len(),
            states == filemeta::state_views(stored@),
            text::texts(changed@) == paths_with(states.take(i as int), disk@, Verdict::Changed),
            text::texts(deleted@) == paths_with(states.take(i as int), disk@, Verdict::Deleted),
        decreases stored@.len() - i,
    {
        let ghost changed_before = text::texts(changed@);
        let ghost deleted_before = text::texts(deleted@);
        proof {
            assert(states.take(i + 1).drop_last() =~= states.take(i as int));
            assert(states.take(i + 1).last() == stored@[i as int]@);
        }
        match judge(&stored[i], &disk) {
            Verdict::Changed => {
                changed.push(stored[i].path.clone());
                assert(text::texts(changed@) =~= changed_before.push(stored@[i as int].path@));
            },
            Verdict::Deleted => {
                deleted.push(stored[i].path.clone());
                assert(text::texts(deleted@) =~= deleted_before.push(stored@[i as int].path@));
            },
            Verdict::Unchanged => {},
        }
        i += 1;
    }
    assert(states.take(i as int) =~= states);
    let mut known = stored_paths(&stored);
    add_skipped(&mut known, &left_out, &disk);
    let ghost known_paths = known@;
    let mut added = new_paths(known, current);
    let ghost unsorted = text::texts(added@);
    sort_texts(&mut changed);
    sort_texts(&mut deleted);
    sort_texts(&mut added);
    proof {
        sorting::lemma_sorted_copy_members(text::texts(added@), unsorted);
        sorting::lemma_sorted_copy_distinct(text::texts(added@), unsorted);
        assert forall|path: Seq<char>| #[trigger] text::texts(added@).contains(path) <==> disk@.dom().contains(path)
            && !has_path(states, path) && !still_skipped(skips, disk@, path) by {
            assert(text::texts(added@).contains(path) <==> unsorted.contains(path));
            assert(known_paths.contains(path) <==> has_path(states, path) || still_skipped(skips, disk@, path));
        }
    }
    let is_fresh: bool = changed.len() == 0 && deleted.len() == 0 && added.len() == 0;
    Ok(FreshnessReport { changed, deleted, added, is_fresh, total_indexed: stored.len() })
}

/// The state of a file on disk whose modification time and size could be read.
pub open spec fn state_of(file: CurrentView) -> StateView
    recommends
        file.stat is Some,
{
    let (mtime, size) = file.stat->0;
    StateView { path: file.path, mtime, size }
}

/// The states of the files on disk whose modification time and size could be read, in
/// their order: of those that are indexed, or of those that are not.
pub open spec fn collected(current: Seq<CurrentView>, files: Seq<Seq<char>>, indexed: bool) -> Seq<StateView>
    decreases current.len(),
{
    if current.len() == 0 {
        Seq::empty()
    } else if current.last().stat is Some && files.contains(current.last().path) == indexed {
        collected(current.drop_last(), files, indexed).push(state_of(current.last()))
    } else {
        collected(current.drop_last(), files, indexed)
    }
}

/// Collects the states of the files on disk that are indexed, or of those that are not.
fn collect_states(files: &[String], current: &[CurrentFile], indexed: bool) -> (states: Vec<FileState>)
    ensures
        filemeta::state_views(states@) == collected(current_views(current@), text::texts(files@), indexed),
{
    let known = text_set(files);
    let ghost names = text::texts(files@);
    let mut states: Vec<FileState> = Vec::new();
    let ghost all = current_views(current@);
    let mut i: usize = 0;
    assert(filemeta::state_views(states@) =~= Seq::<StateView>::empty());
    while i < current.len()
        invariant
            i <= current@.len(),
            all == current_views(current@),
            names == text::texts(files@),
            forall|path: Seq<char>| #[trigger] known@.contains(path) <==> names.contains(path),
            filemeta::state_views(states@) == collected(all.take(i as int), names, indexed),
        decreases current@.len() - i,
    {
        let ghost before = filemeta::state_views(states@);
        proof {
            assert(all.take(i + 1).drop_last() =~= all.take(i as int));
            assert(all.take(i + 1).last() == current@[i as int]@);
        }
        match current[i].stat {
            Some((mtime, size)) => {
                if known.contains(current[i].path.as_str()) == indexed {
                    states.push(FileState { path: current[i].path.clone(), mtime, size });
                    assert(filemeta::state_views(states@) =~= before.push(
                        StateView { path: current@[i as int].path@, mtime, size },
                    ));
                }
            },
            None => {},
        }
        i += 1;
    }
    assert(all.take(i as int) =~= all);
    states
}

/// Collects the states of all files on disk that are indexed. `files` are the paths of
/// the index.
pub fn collect_file_states(files: &[String], current: &[CurrentFile]) -> (states: Vec<FileState>)
    ensures
        filemeta::state_views(states@) == collected(current_views(current@), text::texts(files@), true),
{
    collect_states(files, current, true)
}

/// Collects the states of all files on disk that are not indexed, so that they do not
/// pass for new ones until they change.
pub fn collect_skipped_states(files: &[String], current: &[CurrentFile]) -> (states: Vec<FileState>)
    ensures
        filemeta::state_views(states@) == collected(current_views(current@), text::texts(files@), false),
{
    collect_states(files, current, false)
}

/// What git's answer says about the commit at the head of the repository: nothing
/// where git failed, else its output without the surrounding white space.
pub fn read_git_head(success: bool, stdout: &[u8]) -> (head: Option<String>)
    ensures
        match head {
            Some(h) => success && h@ == text::trimmed(text::utf8_lossy(stdout@)),
            None => !success,
        },
{
    if success {
        let output = lossy_text(stdout);
        let chars = chars_of(output.as_str());
        Some(string_of(trim(chars.as_slice())))
    } else {
        None
    }
}

// ---------------------------------------------------------------------------
// Laws
// ---------------------------------------------------------------------------

proof fn lemma_paths_with_none(stored: Seq<StateView>, disk: Map<Seq<char>, Option<(u64, u64)>>, wanted: Verdict)
    ensures
        paths_with(stored, disk, wanted).len() == 0 <==> forall|i: int|
            0 <= i < stored.len() ==> verdict(#[trigger] stored[i], disk) != wanted,
    decreases stored.len(),
{
    if stored.len() > 0 {
        let before = stored.drop_last();
        lemma_paths_with_none(before, disk, wanted);
        if forall|i: int| 0 <= i < stored.len() ==> verdict(#[trigger] stored[i], disk) != wanted {
            assert forall|i: int| 0 <= i < before.len() implies verdict(#[trigger] before[i], disk) != wanted by {
                assert(before[i] == stored[i]);
            }
            assert(verdict(stored[stored.len() - 1], disk) != wanted);
        } else {
            let i = choose|i: int| 0 <= i < stored.len() && verdict(#[trigger] stored[i], disk) == wanted;
            if i < before.len() {
                assert(verdict(before[i], disk) == wanted);
            }
        }
    }
}

/// The paths with a verdict are those of the states with it.
pub proof fn lemma_paths_with_members(
    stored: Seq<StateView>,
    disk: Map<Seq<char>, Option<(u64, u64)>>,
    wanted: Verdict,
    path: Seq<char>,
)
    ensures
        paths_with(stored, disk, wanted).contains(path) <==> exists|i: int|
            0 <= i < stored.len() && (#[trigger] stored[i]).path == path && verdict(stored[i], disk) == wanted,
    decreases stored.len(),
{
    let out = paths_with(stored, disk, wanted);
    if stored.len() > 0 {
        let before = stored.drop_last();
        let out_before = paths_with(before, disk, wanted);
        let n = stored.len() - 1;
        lemma_paths_with_members(before, disk, wanted, path);
        if verdict(stored[n], disk) == wanted {
            text::lemma_push_contains(out_before, stored[n].path, path);
        }
        if out.contains(path) {
            if out_before.contains(path) {
                let i = choose|i: int|
                    0 <= i < before.len() && (#[trigger] before[i]).path == path && verdict(before[i], disk) == wanted;
                assert(stored[i].path == path);
            } else {
                assert(stored[n].path == path);
            }
        }
        if exists|i: int| 0 <= i < stored.len() && (#[trigger] stored[i]).path == path && verdict(stored[i], disk) == wanted {
            let i = choose|i: int|
                0 <= i < stored.len() && (#[trigger] stored[i]).path == path && verdict(stored[i], disk) == wanted;
            if i < n {
                assert(before[i].path == path);
            }
        }
    }
}

/// The paths with a verdict are distinct where those of the states are.
pub proof fn lemma_paths_with_distinct(
    stored: Seq<StateView>,
    disk: Map<Seq<char>, Option<(u64, u64)>>,
    wanted: Verdict,
)
    requires
        state_paths(stored).no_duplicates(),
    ensures
        paths_with(stored, disk, wanted).no_duplicates(),
    decreases stored.len(),
{
    if stored.len() > 0 {
        let before = stored.drop_last();
        let n = stored.len() - 1;
        assert(state_paths(before) =~= state_paths(stored).drop_last());
        lemma_paths_with_distinct(before, disk, wanted);
        let path = stored[n].path;
        lemma_paths_with_members(before, disk, wanted, path);
        if paths_with(before, disk, wanted).contains(path) {
            let i = choose|i: int|
                0 <= i < before.len() && (#[trigger] before[i]).path == path && verdict(before[i], disk) == wanted;
            assert(state_paths(stored)[i] == state_paths(stored)[n]);
        }
        if verdict(stored[n], disk) == wanted {
            lemma_push_distinct(paths_with(before, disk, wanted), path);
        }
    }
}

/// An index is fresh exactly if every indexed file is unchanged and every other file on
/// disk was skipped and is unchanged.
pub proof fn law_fresh_means_unchanged(
    report: FreshnessReport,
    stored: Seq<StateView>,
    skipped: Seq<StateView>,
    current: Seq<CurrentView>,
)
    requires
        reports(report, stored, skipped, current),
    ensures
        report.is_fresh <==> (forall|i: int|
            0 <= i < stored.len() ==> verdict(#[trigger] stored[i], on_disk(current)) == Verdict::Unchanged) && (forall|
            path: Seq<char>,
        |
            #[trigger] on_disk(current).dom().contains(path) ==> has_path(stored, path) || still_skipped(
                skipped,
                on_disk(current),
                path,
            )),
{
    let disk = on_disk(current);
    lemma_paths_with_none(stored, disk, Verdict::Changed);
    lemma_paths_with_none(stored, disk, Verdict::Deleted);
    sorting::lemma_sorted_copy_members(text::texts(report.changed@), paths_with(stored, disk, Verdict::Changed));
    sorting::lemma_sorted_copy_members(text::texts(report.deleted@), paths_with(stored, disk, Verdict::Deleted));
    let added = text::texts(report.added@);
    assert(text::texts(report.changed@).len() == report.changed@.len());
    assert(text::texts(report.deleted@).len() == report.deleted@.len());
    assert(added.len() == report.added@.len());
    if report.is_fresh {
        assert forall|path: Seq<char>| #[trigger] disk.dom().contains(path) implies has_path(stored, path)
            || still_skipped(skipped, disk, path) by {
            assert(!added.contains(path));
        }
    } else if added.len() > 0 {
        assert(added.contains(added[0]));
    }
}

/// A file on disk is found under its path.
pub proof fn lemma_on_disk_distinct(current: Seq<CurrentView>, i: int)
    requires
        0 <= i < current.len(),
        distinct_files(current),
    ensures
        on_disk(current).dom().contains(current[i].path),
        on_disk(current)[current[i].path] == current[i].stat,
    decreases current.len(),
{
    if i < current.len() - 1 {
        let before = current.drop_last();
        assert(before[i] == current[i]);
        assert forall|a: int, b: int| 0 <= a < b < before.len() implies (#[trigger] before[a]).path != (
        #[trigger] before[b]).path by {
            assert(current[a].path != current[b].path);
        }
        lemma_on_disk_distinct(before, i);
        assert(current[i].path != current[current.len() - 1].path);
    }
}

/// What is found under a path is a file on disk.
pub proof fn lemma_on_disk_from(current: Seq<CurrentView>, path: Seq<char>)
    requires
        on_disk(current).dom().contains(path),
    ensures
        exists|i: int| 0 <= i < current.len() && (#[trigger] current[i]).path == path,
    decreases current.len(),
{
    if current.len() > 0 {
        if path == current.last().path {
            assert(current[current.len() - 1].path == path);
        } else {
            let before = current.drop_last();
            lemma_on_disk_from(before, path);
            let i = choose|i: int| 0 <= i < before.len() && (#[trigger] before[i]).path == path;
            assert(current[i].path == path);
        }
    }
}

/// Whether no path occurs twice among files on disk.
pub open spec fn distinct_files(current: Seq<CurrentView>) -> bool {
    forall|a: int, b: int| 0 <= a < b < current.len() ==> (#[trigger] current[a]).path != (#[trigger] current[b]).path
}

/// Whether a state is that of a file on disk which is indexed, or of one which is not.
pub open spec fn comes_from(s: StateView, current: Seq<CurrentView>, files: Seq<Seq<char>>, indexed: bool, i: int) -> bool {
    &&& 0 <= i < current.len()
    &&& current[i].stat is Some
    &&& files.contains(current[i].path) == indexed
    &&& s == state_of(current[i])
}

/// Whether a state is that of some such file.
pub open spec fn has_source(s: StateView, current: Seq<CurrentView>, files: Seq<Seq<char>>, indexed: bool) -> bool {
    exists|i: int| comes_from(s, current, files, indexed, i)
}

/// What is collected is the states of the files in question, all of them.
pub proof fn lemma_collected(current: Seq<CurrentView>, files: Seq<Seq<char>>, indexed: bool)
    ensures
        forall|k: int|
            0 <= k < collected(current, files, indexed).len() ==> has_source(
                #[trigger] collected(current, files, indexed)[k],
                current,
                files,
                indexed,
            ),
        forall|i: int|
            0 <= i < current.len() && (#[trigger] current[i]).stat is Some && files.contains(current[i].path) == indexed
                ==> collected(current, files, indexed).contains(state_of(current[i])),
    decreases current.len(),
{
    let out = collected(current, files, indexed);
    if current.len() > 0 {
        let before = current.drop_last();
        let out_before = collected(before, files, indexed);
        lemma_collected(before, files, indexed);
        assert forall|k: int| 0 <= k < out.len() implies has_source(#[trigger] out[k], current, files, indexed) by {
            if k < out_before.len() {
                assert(out[k] == out_before[k]);
                let i = choose|i: int| comes_from(out_before[k], before, files, indexed, i);
                assert(comes_from(out[k], current, files, indexed, i));
            } else {
                assert(comes_from(out[k], current, files, indexed, current.len() - 1));
            }
        }
        assert forall|i: int|
            0 <= i < current.len() && (#[trigger] current[i]).stat is Some && files.contains(current[i].path)
                == indexed implies out.contains(state_of(current[i])) by {
            if i < before.len() {
                assert(before[i] == current[i]);
                let k = choose|k: int| 0 <= k < out_before.len() && out_before[k] == state_of(before[i]);
                assert(out[k] == state_of(current[i]));
            } else {
                assert(out[out_before.len() as int] == state_of(current[i]));
            }
        }
    }
}

/// What is collected of distinct files is distinct.
proof fn lemma_collected_distinct(current: Seq<CurrentView>, files: Seq<Seq<char>>, indexed: bool)
    requires
        distinct_files(current),
    ensures
        forall|a: int, b: int|
            0 <= a < b < collected(current, files, indexed).len() ==> (#[trigger] collected(
                current,
                files,
                indexed,
            )[a]).path != (#[trigger] collected(current, files, indexed)[b]).path,
    decreases current.len(),
{
    let out = collected(current, files, indexed);
    if current.len() > 0 {
        let before = current.drop_last();
        let out_before = collected(before, files, indexed);
        assert(distinct_files(before)) by {
            assert forall|a: int, b: int| 0 <= a < b < before.len() implies (#[trigger] before[a]).path != (
            #[trigger] before[b]).path by {
                assert(current[a].path != current[b].path);
            }
        }
        lemma_collected_distinct(before, files, indexed);
        lemma_collected(before, files, indexed);
        assert forall|a: int, b: int| 0 <= a < b < out.len() implies (#[trigger] out[a]).path != (
        #[trigger] out[b]).path by {
            assert(out[a] == out_before[a]);
            if b < out_before.len() {
                assert(out[b] == out_before[b]);
            } else {
                let i = choose|i: int| comes_from(out_before[a], before, files, indexed, i);
                assert(current[i].path != current[current.len() - 1].path);
            }
        }
    }
}

/// The paths of states.
pub open spec fn state_paths(states: Seq<StateView>) -> Seq<Seq<char>> {
    states.map_values(|s: StateView| s.path)
}

/// The states that are collected for an index are those of its files, as they are on
/// disk, and each of them once, where no path occurs twice on disk and the files of the
/// index are there and can be looked at.
pub proof fn law_collected_are_the_indexed(current: Seq<CurrentView>, files: Seq<Seq<char>>)
    requires
        distinct_files(current),
        forall|path: Seq<char>|
            #[trigger] files.contains(path) ==> on_disk(current).dom().contains(path) && on_disk(current)[path] is Some,
    ensures
        state_paths(collected(current, files, true)).no_duplicates(),
        forall|path: Seq<char>|
            #[trigger] state_paths(collected(current, files, true)).contains(path) <==> files.contains(path),
        forall|i: int|
            0 <= i < collected(current, files, true).len() ==> {
                let s = #[trigger] collected(current, files, true)[i];
                &&& on_disk(current).dom().contains(s.path)
                &&& on_disk(current)[s.path] == Some((s.mtime, s.size))
            },
{
    let out = collected(current, files, true);
    let paths = state_paths(out);
    lemma_collected(current, files, true);
    lemma_collected_distinct(current, files, true);
    assert forall|i: int| 0 <= i < out.len() implies ({
        let s = #[trigger] out[i];
        &&& on_disk(current).dom().contains(s.path)
        &&& on_disk(current)[s.path] == Some((s.mtime, s.size))
        &&& files.contains(s.path)
    }) by {
        let k = choose|k: int| comes_from(out[i], current, files, true, k);
        lemma_on_disk_distinct(current, k);
    }
    assert forall|path: Seq<char>| #[trigger] paths.contains(path) <==> files.contains(path) by {
        if paths.contains(path) {
            let k = choose|k: int| 0 <= k < paths.len() && paths[k] == path;
            assert(out[k].path == path);
        }
        if files.contains(path) {
            lemma_on_disk_from(current, path);
            let i = choose|i: int| 0 <= i < current.len() && (#[trigger] current[i]).path == path;
            lemma_on_disk_distinct(current, i);
            let k = choose|k: int| 0 <= k < out.len() && out[k] == state_of(current[i]);
            assert(paths[k] == path);
        }
    }
    assert forall|a: int, b: int| 0 <= a < paths.len() && 0 <= b < paths.len() && a != b implies paths[a] != paths[b] by {
        if a < b {
            assert(out[a].path != out[b].path);
        } else {
            assert(out[b].path != out[a].path);
        }
    }
}

/// An index is fresh against the files whose states were collected for it, where no
/// path occurs twice and all modification times and sizes could be read.
pub proof fn law_fresh_after_collecting(
    report: FreshnessReport,
    files: Seq<Seq<char>>,
    current: Seq<CurrentView>,
)
    requires
        distinct_files(current),
        forall|i: int| 0 <= i < current.len() ==> (#[trigger] current[i]).stat is Some,
        reports(report, collected(current, files, true), collected(current, files, false), current),
    ensures
        report.is_fresh,
{
    let stored = collected(current, files, true);
    let skipped = collected(current, files, false);
    let disk = on_disk(current);
    lemma_collected(current, files, true);
    lemma_collected(current, files, false);
    assert forall|i: int| 0 <= i < stored.len() implies verdict(#[trigger] stored[i], disk) == Verdict::Unchanged by {
        let k = choose|k: int| comes_from(stored[i], current, files, true, k);
        lemma_on_disk_distinct(current, k);
    }
    assert forall|path: Seq<char>| #[trigger] disk.dom().contains(path) implies has_path(stored, path)
        || still_skipped(skipped, disk, path) by {
        lemma_on_disk_from(current, path);
        let i = choose|i: int| 0 <= i < current.len() && (#[trigger] current[i]).path == path;
        assert(current[i].stat is Some);
        lemma_on_disk_distinct(current, i);
        if files.contains(path) {
            let k = choose|k: int| 0 <= k < stored.len() && stored[k] == state_of(current[i]);
            assert(stored[k].path == path);
        } else {
            let k = choose|k: int| 0 <= k < skipped.len() && skipped[k] == state_of(current[i]);
            assert(skipped[k].path == path);
        }
    }
    law_fresh_means_unchanged(report, stored, skipped, current);
}

/// The last file on disk with a path is the one that counts; -1 stands for none.
proof fn lemma_last_counts(current: Seq<CurrentView>, path: Seq<char>) -> (j: int)
    ensures
        -1 <= j < current.len(),
        forall|k: int| j < k < current.len() ==> (#[trigger] current[k]).path != path,
        on_disk(current).dom().contains(path) <==> j >= 0,
        j >= 0 ==> current[j].path == path && on_disk(current)[path] == current[j].stat,
    decreases current.len(),
{
    if current.len() == 0 {
        -1
    } else if current.last().path == path {
        current.len() - 1
    } else {
        let j = lemma_last_counts(current.drop_last(), path);
        assert forall|k: int| j < k < current.len() implies (#[trigger] current[k]).path != path by {
            if k < current.len() - 1 {
                assert(current.drop_last()[k].path != path);
            }
        }
        j
    }
}

/// What a report says of a path, in terms of what was recorded and what is on disk, where
/// the last file with the path counts.
///
/// The path is changed exactly if it is indexed with a modification time or a size that the
/// file on disk does not have; deleted exactly if it is indexed and there is no such file,
/// or none that can be looked at; and added exactly if there is such a file, the path is not
/// indexed, and the file is not one that was skipped with its modification time and size.
pub proof fn law_report_tells_what_changed(
    report: FreshnessReport,
    stored: Seq<StateView>,
    skipped: Seq<StateView>,
    current: Seq<CurrentView>,
    path: Seq<char>,
) -> (j: int)
    requires
        reports(report, stored, skipped, current),
    ensures
        -1 <= j < current.len(),
        j >= 0 ==> current[j].path == path,
        forall|k: int| j < k < current.len() ==> (#[trigger] current[k]).path != path,
        text::texts(report.changed@).contains(path) <==> j >= 0 && current[j].stat is Some && exists|i: int|
            0 <= i < stored.len() && (#[trigger] stored[i]).path == path && current[j].stat->0 != (
                stored[i].mtime,
                stored[i].size,
            ),
        text::texts(report.deleted@).contains(path) <==> (j < 0 || current[j].stat is None) && exists|i: int|
            0 <= i < stored.len() && (#[trigger] stored[i]).path == path,
        text::texts(report.added@).contains(path) <==> j >= 0 && (forall|i: int|
            0 <= i < stored.len() ==> (#[trigger] stored[i]).path != path) && (forall|i: int|
            0 <= i < skipped.len() && (#[trigger] skipped[i]).path == path ==> current[j].stat != Some(
                (skipped[i].mtime, skipped[i].size),
            )),
{
    broadcast use vstd::seq_lib::group_to_multiset_ensures;

    let disk = on_disk(current);
    let j = lemma_last_counts(current, path);
    let changed = paths_with(stored, disk, Verdict::Changed);
    let deleted = paths_with(stored, disk, Verdict::Deleted);
    lemma_paths_with_members(stored, disk, Verdict::Changed, path);
    lemma_paths_with_members(stored, disk, Verdict::Deleted, path);
    assert(text::texts(report.changed@).contains(path) <==> changed.contains(path)) by {
        assert(text::texts(report.changed@).to_multiset().count(path) == changed.to_multiset().count(path));
    }
    assert(text::texts(report.deleted@).contains(path) <==> deleted.contains(path)) by {
        assert(text::texts(report.deleted@).to_multiset().count(path) == deleted.to_multiset().count(path));
    }
    assert(text::texts(report.added@).contains(path) <==> disk.dom().contains(path) && !has_path(stored, path)
        && !still_skipped(skipped, disk, path));
    j
}

/// A report names no path twice where none is indexed twice, and each list in ascending
/// order of the bytes of the paths. It is fresh exactly if it names none, and counts the
/// indexed files.
pub proof fn law_report_names_each_path_once(
    report: FreshnessReport,
    stored: Seq<StateView>,
    skipped: Seq<StateView>,
    current: Seq<CurrentView>,
)
    requires
        reports(report, stored, skipped, current),
        forall|a: int, b: int| 0 <= a < b < stored.len() ==> (#[trigger] stored[a]).path != (#[trigger] stored[b]).path,
    ensures
        text::texts(report.changed@).no_duplicates(),
        text::texts(report.deleted@).no_duplicates(),
        text::texts(report.added@).no_duplicates(),
        sorting::in_order(text::texts(report.changed@)),
        sorting::in_order(text::texts(report.deleted@)),
        sorting::in_order(text::texts(report.added@)),
        report.is_fresh <==> report.changed@.len() + report.deleted@.len() + report.added@.len() == 0,
        report.total_indexed == stored.len(),
{
    let disk = on_disk(current);
    lemma_paths_with_distinct(stored, disk, Verdict::Changed);
    lemma_paths_with_distinct(stored, disk, Verdict::Deleted);
    paths_with(stored, disk, Verdict::Changed).lemma_multiset_has_no_duplicates();
    paths_with(stored, disk, Verdict::Deleted).lemma_multiset_has_no_duplicates();
    text::texts(report.changed@).lemma_multiset_has_no_duplicates_conv();
    text::texts(report.deleted@).lemma_multiset_has_no_duplicates_conv();
}

/// The states that are collected are those of the files that can be looked at and that are
/// indexed, or that are not, each with its path, modification time and size, in the order of
/// the files.
pub proof fn law_collected_states(current: Seq<CurrentView>, files: Seq<Seq<char>>, indexed: bool)
    ensures
        collected(current, files, indexed) == current.filter(
            |c: CurrentView| c.stat is Some && files.contains(c.path) == indexed,
        ).map_values(
            |c: CurrentView|
                match c.stat {
                    Some((mtime, size)) => StateView { path: c.path, mtime, size },
                    None => StateView { path: c.path, mtime: 0, size: 0 },
                },
        ),
    decreases current.len(),
{
    reveal(Seq::filter);
    if current.len() > 0 {
        law_collected_states(current.drop_last(), files, indexed);
    }
    assert(collected(current, files, indexed) =~= current.filter(
        |c: CurrentView| c.stat is Some && files.contains(c.path) == indexed,
    ).map_values(
        |c: CurrentView|
            match c.stat {
                Some((mtime, size)) => StateView { path: c.path, mtime, size },
                None => StateView { path: c.path, mtime: 0, size: 0 },
            },
    ));
}

/// What was skipped is read from its record, as what was indexed is; without a record nothing
/// was.
pub proof fn law_recorded_states(filemeta: Option<Seq<u8>>)
    ensures
        recorded(filemeta) == (if filemeta is Some {
            filemeta::read_filemeta_bytes(filemeta->0)
        } else {
            Ok(Seq::empty())
        }),
{
}

} // verus!
