//! From what a walk of a tree has met to the work that follows from it.
//!
//! The walk itself is the caller's: it hands over one event for each
//! thing it met, in the order in which it met them. A directory becomes a
//! fingerprint at once. A file is scored and waits to be fingerprinted. An
//! entry that could not be reached, one whose path below the root could
//! not be derived, and one that is neither a directory nor a file are
//! passed over; none of them ends the scan.

use crate::fingerprint::{Fingerprint, FingerprintView};
use crate::priority::{
    is_priority_order_of, lemma_equal_scores_keep_order, lemma_priority_order_keeps_files,
    prioritize, NeutralScorer, PriorityScorer, ScoredPath, ScoredPathView, NEUTRAL_SCORE,
};
use vstd::prelude::*;

verus! {

/// What kind of thing an entry of the tree is.
#[derive(Clone, Copy, Debug, PartialEq, Eq, Hash, Structural)]
pub enum EntryKind {
    Directory,
    File,
    /// Anything that is neither a directory nor a regular file.
    Other,
}

/// One entry that the walk has reached.
#[derive(Clone, Debug, PartialEq, Eq)]
pub struct WalkEntry {
    /// The path of the entry, the root of the scan included.
    pub path: String,
    /// The path below the root of the scan, or `None` where it could not
    /// be derived.
    pub relative_path: Option<String>,
    pub kind: EntryKind,
}

/// The mathematical content of a `WalkEntry`.
pub struct WalkEntryView {
    pub path: Seq<char>,
    pub relative_path: Option<Seq<char>>,
    pub kind: EntryKind,
}

impl View for WalkEntry {
    type V = WalkEntryView;

    open spec fn view(&self) -> WalkEntryView {
        WalkEntryView {
            path: self.path@,
            relative_path: self.relative_path.deep_view(),
            kind: self.kind,
        }
    }
}

impl DeepView for WalkEntry {
    type V = WalkEntryView;

    open spec fn deep_view(&self) -> WalkEntryView {
        self@
    }
}

/// The fingerprint that an event gives rise to at once: that of a
/// directory whose path below the root is known.
pub open spec fn directory_of(event: Option<WalkEntryView>) -> Option<FingerprintView> {
    match event {
        Some(entry) => match entry.relative_path {
            Some(relative_path) => if entry.kind == EntryKind::Directory {
                Some(FingerprintView { relative_path, is_dir: true, chunks: None })
            } else {
                None
            },
            None => None,
        },
        None => None,
    }
}

/// The file that an event gives rise to: the entry itself, if it is a
/// file whose path below the root is known.
pub open spec fn file_of(event: Option<WalkEntryView>) -> Option<WalkEntryView> {
    match event {
        Some(entry) => if entry.kind == EntryKind::File && entry.relative_path is Some {
            Some(entry)
        } else {
            None
        },
        None => None,
    }
}

/// The fingerprints of the directories among the first `upto` events, in
/// the order of the events.
pub open spec fn directories(events: Seq<Option<WalkEntryView>>, upto: int) -> Seq<
    FingerprintView,
>
    decreases upto,
{
    if upto <= 0 {
        Seq::empty()
    } else {
        let earlier = directories(events, upto - 1);
        match directory_of(events[upto - 1]) {
            Some(fingerprint) => earlier.push(fingerprint),
            None => earlier,
        }
    }
}

/// The files among the first `upto` events, in the order of the events.
pub open spec fn found_files(events: Seq<Option<WalkEntryView>>, upto: int) -> Seq<WalkEntryView>
    decreases upto,
{
    if upto <= 0 {
        Seq::empty()
    } else {
        let earlier = found_files(events, upto - 1);
        match file_of(events[upto - 1]) {
            Some(file) => earlier.push(file),
            None => earlier,
        }
    }
}

/// Whether `scored` holds the files of `files`, one for one and in the
/// same order, each with a score that the scorer may give its path.
pub open spec fn scored_by<S: PriorityScorer>(
    scored: Seq<ScoredPathView>,
    files: Seq<WalkEntryView>,
    root: Seq<char>,
    scorer: S,
) -> bool {
    &&& scored.len() == files.len()
    &&& forall|k: int|
        0 <= k < scored.len() ==> {
            &&& (#[trigger] scored[k]).path == files[k].path
            &&& scored[k].relative_path == files[k].relative_path
            &&& scorer.allows(files[k].path, root, scored[k].score)
        }
}

/// Every file with a known path below the root is among the files found,
/// and every directory with one among the directories.
pub proof fn lemma_nothing_found_is_lost(events: Seq<Option<WalkEntryView>>, upto: int, i: int)
    requires
        0 <= i < upto <= events.len(),
    ensures
        file_of(events[i]) matches Some(file) ==> found_files(events, upto).contains(file),
        directory_of(events[i]) matches Some(fingerprint) ==> directories(events, upto).contains(
            fingerprint,
        ),
    decreases upto,
{
    let files = found_files(events, upto);
    let earlier_files = found_files(events, upto - 1);
    let dirs = directories(events, upto);
    let earlier_dirs = directories(events, upto - 1);
    if i < upto - 1 {
        lemma_nothing_found_is_lost(events, upto - 1, i);
        if let Some(file) = file_of(events[i]) {
            let k = choose|k: int| 0 <= k < earlier_files.len() && earlier_files[k] == file;
            assert(files[k] == file);
        }
        if let Some(fingerprint) = directory_of(events[i]) {
            let k = choose|k: int| 0 <= k < earlier_dirs.len() && earlier_dirs[k] == fingerprint;
            assert(dirs[k] == fingerprint);
        }
    } else {
        if let Some(file) = file_of(events[i]) {
            assert(files[files.len() - 1] == file);
        }
        if let Some(fingerprint) = directory_of(events[i]) {
            assert(dirs[dirs.len() - 1] == fingerprint);
        }
    }
}

/// Whatever the scores are, every file that was found waits to be
/// fingerprinted: the score decides when its turn comes, not whether.
pub proof fn lemma_every_file_is_scheduled<S: PriorityScorer>(
    ordered: Seq<ScoredPathView>,
    found: Seq<ScoredPathView>,
    files: Seq<WalkEntryView>,
    root: Seq<char>,
    scorer: S,
    k: int,
)
    requires
        scored_by(found, files, root, scorer),
        is_priority_order_of(ordered, found),
        0 <= k < files.len(),
    ensures
        exists|j: int|
            0 <= j < ordered.len() && (#[trigger] ordered[j]).path == files[k].path
                && ordered[j].relative_path == files[k].relative_path,
{
    assert(found[k].path == files[k].path);
    assert(found.contains(found[k]));
    lemma_priority_order_keeps_files(ordered, found, found[k]);
    let j = choose|j: int| 0 <= j < ordered.len() && ordered[j] == found[k];
    assert(ordered[j].path == files[k].path);
}

/// With the neutral scorer the files wait in the order of the walk, each
/// with the neutral score.
pub proof fn lemma_neutral_scorer_keeps_walk_order(
    ordered: Seq<ScoredPathView>,
    scored: Seq<ScoredPathView>,
    files: Seq<WalkEntryView>,
    root: Seq<char>,
)
    requires
        scored_by(scored, files, root, NeutralScorer),
        is_priority_order_of(ordered, scored),
    ensures
        ordered.len() == files.len(),
        forall|k: int|
            0 <= k < ordered.len() ==> (#[trigger] ordered[k]) == (ScoredPathView {
                score: NEUTRAL_SCORE,
                path: files[k].path,
                relative_path: files[k].relative_path,
            }),
{
    assert forall|k: int| 0 <= k < scored.len() implies (#[trigger] scored[k]).score
        == NEUTRAL_SCORE by {
        assert(NeutralScorer.allows(files[k].path, root, scored[k].score));
    }
    lemma_equal_scores_keep_order(ordered, scored, NEUTRAL_SCORE);
}

/// Sorts what a walk has met into the files to fingerprint, in priority
/// order, and the fingerprints of the directories.
///
/// An event of `None` stands for an entry that the walk could not reach.
/// The directories keep the order of the walk. Each file is scored once,
/// with its path and `root` handed to the scorer; the files come by
/// descending score, files of equal score in the order of the walk.
pub fn collect_paths_with_priority<S: PriorityScorer>(
    root: &str,
    events: &Vec<Option<WalkEntry>>,
    scorer: &S,
) -> (found: (Vec<ScoredPath>, Vec<Fingerprint>))
    ensures
        exists|scored: Seq<ScoredPathView>|
            #[trigger] scored_by(
                scored,
                found_files(events.deep_view(), events@.len() as int),
                root@,
                *scorer,
            ) && is_priority_order_of(found.0.deep_view(), scored),
        found.1.deep_view() == directories(events.deep_view(), events@.len() as int),
{
    let mut files: Vec<ScoredPath> = Vec::new();
    let mut dirs: Vec<Fingerprint> = Vec::new();
    let mut i: usize = 0;
    while i < events.len()
        invariant
            i <= events@.len(),
            scored_by(files.deep_view(), found_files(events.deep_view(), i as int), root@, *scorer),
            dirs.deep_view() == directories(events.deep_view(), i as int),
        decreases events@.len() - i,
    {
        let ghost files_before = files.deep_view();
        let ghost dirs_before = dirs.deep_view();
        proof {
            assert(events.deep_view()[i as int] == events@[i as int].deep_view());
        }
        match &events[i] {
            Some(entry) => match &entry.relative_path {
                Some(relative_path) => match entry.kind {
                    EntryKind::Directory => {
                        let fingerprint = Fingerprint::directory(relative_path.clone());
                        dirs.push(fingerprint);
                        proof {
                            assert(dirs.deep_view() =~= dirs_before.push(fingerprint@));
                        }
                    },
                    EntryKind::File => {
                        let score: i64 = scorer.score(entry.path.as_str(), root);
                        let file = ScoredPath {
                            score,
                            path: entry.path.clone(),
                            relative_path: Some(relative_path.clone()),
                        };
                        files.push(file);
                        proof {
                            assert(files.deep_view() =~= files_before.push(file@));
                        }
                    },
                    EntryKind::Other => {},
                },
                None => {},
            },
            None => {},
        }
        i += 1;
    }
    let ghost scored = files.deep_view();
    let ordered: Vec<ScoredPath> = prioritize(files);
    proof {
        assert(scored_by(scored, found_files(events.deep_view(), events@.len() as int), root@, *scorer));
    }
    (ordered, dirs)
}

} // verus!
