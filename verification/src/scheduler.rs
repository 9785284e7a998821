//! From the outcome of each file to the fingerprints of a scan.
//!
//! The files are read and fingerprinted by the caller, each on its own and
//! in any order, also in parallel. What comes back for a file is its list
//! of digests, or nothing where the file could not be opened, locked or
//! mapped. A file without outcome has no fingerprint in the result; the
//! other files have theirs all the same.

use crate::fingerprint::{Fingerprint, FingerprintView};
use crate::priority::{ScoredPath, ScoredPathView};
use vstd::prelude::*;

verus! {

/// The fingerprint of a file, where its path below the root is known and
/// its digests have been computed.
pub open spec fn fingerprint_of(
    file: ScoredPathView,
    outcome: Option<Seq<Seq<char>>>,
) -> Option<FingerprintView> {
    match file.relative_path {
        Some(relative_path) => match outcome {
            Some(chunks) => Some(
                FingerprintView { relative_path, is_dir: false, chunks: Some(chunks) },
            ),
            None => None,
        },
        None => None,
    }
}

/// The fingerprints of the first `upto` files, in the order of the files.
pub open spec fn file_fingerprints(
    files: Seq<ScoredPathView>,
    outcomes: Seq<Option<Seq<Seq<char>>>>,
    upto: int,
) -> Seq<FingerprintView>
    decreases upto,
{
    if upto <= 0 {
        Seq::empty()
    } else {
        let earlier = file_fingerprints(files, outcomes, upto - 1);
        match fingerprint_of(files[upto - 1], outcomes[upto - 1]) {
            Some(fingerprint) => earlier.push(fingerprint),
            None => earlier,
        }
    }
}

/// The number of files that have an outcome: the two lists are read side
/// by side, as far as the shorter one goes.
pub open spec fn paired(files: Seq<ScoredPathView>, outcomes: Seq<Option<Seq<Seq<char>>>>) -> int {
    if files.len() <= outcomes.len() {
        files.len() as int
    } else {
        outcomes.len() as int
    }
}

/// A failure stays with the file that it befell: whatever happened to the
/// other files, a file whose digests were computed has its fingerprint in
/// the result.
pub proof fn lemma_failures_are_isolated(
    files: Seq<ScoredPathView>,
    outcomes: Seq<Option<Seq<Seq<char>>>>,
    upto: int,
    i: int,
)
    requires
        0 <= i < upto <= paired(files, outcomes),
        fingerprint_of(files[i], outcomes[i]) is Some,
    ensures
        file_fingerprints(files, outcomes, upto).contains(
            fingerprint_of(files[i], outcomes[i]).unwrap(),
        ),
    decreases upto,
{
    let wanted = fingerprint_of(files[i], outcomes[i]).unwrap();
    let all = file_fingerprints(files, outcomes, upto);
    let earlier = file_fingerprints(files, outcomes, upto - 1);
    if i < upto - 1 {
        lemma_failures_are_isolated(files, outcomes, upto - 1, i);
        let k = choose|k: int| 0 <= k < earlier.len() && earlier[k] == wanted;
        assert(all[k] == wanted);
    } else {
        assert(all[all.len() - 1] == wanted);
    }
}

/// Every fingerprint in the result is that of one of the files: a file
/// without outcome leaves no trace, and nothing is made up.
pub proof fn lemma_fingerprints_have_a_file(
    files: Seq<ScoredPathView>,
    outcomes: Seq<Option<Seq<Seq<char>>>>,
    upto: int,
    k: int,
)
    requires
        0 <= upto <= paired(files, outcomes),
        0 <= k < file_fingerprints(files, outcomes, upto).len(),
    ensures
        exists|i: int|
            0 <= i < upto && #[trigger] fingerprint_of(files[i], outcomes[i]) == Some(
                file_fingerprints(files, outcomes, upto)[k],
            ),
    decreases upto,
{
    let earlier = file_fingerprints(files, outcomes, upto - 1);
    if k < earlier.len() {
        lemma_fingerprints_have_a_file(files, outcomes, upto - 1, k);
        let i = choose|i: int|
            0 <= i < upto - 1 && #[trigger] fingerprint_of(files[i], outcomes[i]) == Some(
                earlier[k],
            );
        assert(fingerprint_of(files[i], outcomes[i]) == Some(
            file_fingerprints(files, outcomes, upto)[k],
        ));
    } else {
        assert(fingerprint_of(files[upto - 1], outcomes[upto - 1]) == Some(
            file_fingerprints(files, outcomes, upto)[k],
        ));
    }
}

/// Makes the fingerprint of one file from its outcome.
pub fn file_fingerprint(file: &ScoredPath, outcome: Option<Vec<String>>) -> (fingerprint: Option<
    Fingerprint,
>)
    ensures
        fingerprint.deep_view() == fingerprint_of(file@, outcome.deep_view()),
{
    match &file.relative_path {
        Some(relative_path) => match outcome {
            Some(chunks) => Some(Fingerprint::file(relative_path.clone(), chunks)),
            None => None,
        },
        None => None,
    }
}

/// Makes the fingerprints of the files from their outcomes: the outcome
/// at a place in `outcomes` is that of the file at the same place in
/// `files`.
///
/// The fingerprints keep the order of the files. A file whose outcome is
/// `None`, or whose path below the root is not known, has none.
pub fn hash_files_to_fingerprints(
    files: &Vec<ScoredPath>,
    outcomes: Vec<Option<Vec<String>>>,
) -> (fingerprints: Vec<Fingerprint>)
    ensures
        fingerprints.deep_view() == file_fingerprints(
            files.deep_view(),
            outcomes.deep_view(),
            paired(files.deep_view(), outcomes.deep_view()),
        ),
{
    let ghost given = outcomes.deep_view();
    let mut rest: Vec<Option<Vec<String>>> = outcomes;
    let mut fingerprints: Vec<Fingerprint> = Vec::new();
    let count: usize = if files.len() <= rest.len() {
        files.len()
    } else {
        rest.len()
    };
    let mut i: usize = 0;
    while i < count
        invariant
            i <= count,
            count == paired(files.deep_view(), given),
            rest@.len() == given.len(),
            forall|k: int| i <= k < rest@.len() ==> (#[trigger] rest@[k]).deep_view() == given[k],
            fingerprints.deep_view() == file_fingerprints(files.deep_view(), given, i as int),
        decreases count - i,
    {
        let ghost before = fingerprints.deep_view();
        let outcome: Option<Vec<String>> = rest[i].take();
        proof {
            assert(files.deep_view()[i as int] == files@[i as int]@);
        }
        match file_fingerprint(&files[i], outcome) {
            Some(fingerprint) => {
                fingerprints.push(fingerprint);
                proof {
                    assert(fingerprints.deep_view() =~= before.push(fingerprint@));
                }
            },
            None => {},
        }
        i += 1;
    }
    fingerprints
}

/// Puts a scan together: the fingerprints of the files, followed by
/// those of the directories.
pub fn scan_directory(
    files: &Vec<ScoredPath>,
    outcomes: Vec<Option<Vec<String>>>,
    dirs: Vec<Fingerprint>,
) -> (scan: Vec<Fingerprint>)
    ensures
        scan.deep_view() == file_fingerprints(
            files.deep_view(),
            outcomes.deep_view(),
            paired(files.deep_view(), outcomes.deep_view()),
        ) + dirs.deep_view(),
{
    let mut scan: Vec<Fingerprint> = hash_files_to_fingerprints(files, outcomes);
    let mut dirs: Vec<Fingerprint> = dirs;
    let ghost first = scan.deep_view();
    let ghost second = dirs.deep_view();
    scan.append(&mut dirs);
    proof {
        assert(scan.deep_view() =~= first + second);
    }
    scan
}

} // verus!
