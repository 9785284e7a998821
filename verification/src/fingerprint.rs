//! The fingerprint of one entry of a tree, and sets of fingerprints.
//!
//! A set of fingerprints is a plain `Vec<Fingerprint>`: the complete result
//! of one scan. Its order carries no meaning. Paths are meant to be unique
//! within a set; where a path occurs more than once, the last record with
//! that path is the one that counts.

use vstd::prelude::*;

verus! {

/// What one scan recorded of one path.
#[derive(Clone, Debug, PartialEq, Eq)]
pub struct Fingerprint {
    /// The path below the root of the scan: the key by which two scans
    /// are joined.
    pub relative_path: String,
    /// Whether the entry is a directory.
    pub is_dir: bool,
    /// The digests of the chunks of a file, in the order of its bytes;
    /// `None` for a directory.
    pub chunks: Option<Vec<String>>,
}

/// The mathematical content of a `Fingerprint`.
pub struct FingerprintView {
    pub relative_path: Seq<char>,
    pub is_dir: bool,
    pub chunks: Option<Seq<Seq<char>>>,
}

impl FingerprintView {
    /// A directory has no chunk list, and a file has one.
    pub open spec fn wf(self) -> bool {
        self.is_dir <==> self.chunks is None
    }
}

impl View for Fingerprint {
    type V = FingerprintView;

    open spec fn view(&self) -> FingerprintView {
        FingerprintView {
            relative_path: self.relative_path@,
            is_dir: self.is_dir,
            chunks: self.chunks.deep_view(),
        }
    }
}

impl DeepView for Fingerprint {
    type V = FingerprintView;

    open spec fn deep_view(&self) -> FingerprintView {
        self@
    }
}

impl Fingerprint {
    /// A directory has no chunk list, and a file has one.
    pub open spec fn wf(&self) -> bool {
        self@.wf()
    }

    /// The fingerprint of a directory.
    pub fn directory(relative_path: String) -> (fingerprint: Fingerprint)
        ensures
            fingerprint@ == (FingerprintView {
                relative_path: relative_path@,
                is_dir: true,
                chunks: None,
            }),
            fingerprint.wf(),
    {
        Fingerprint { relative_path, is_dir: true, chunks: None }
    }

    /// The fingerprint of a file with the given chunk digests. An empty
    /// file has an empty list of digests, which is not the same as none.
    pub fn file(relative_path: String, chunks: Vec<String>) -> (fingerprint: Fingerprint)
        ensures
            fingerprint@ == (FingerprintView {
                relative_path: relative_path@,
                is_dir: false,
                chunks: Some(chunks.deep_view()),
            }),
            fingerprint.wf(),
    {
        Fingerprint { relative_path, is_dir: false, chunks: Some(chunks) }
    }
}

/// Whether two lists of digests are equal: of the same length, with the
/// same digest at each position.
pub fn same_digests(left: &Vec<String>, right: &Vec<String>) -> (same: bool)
    ensures
        same == (left.deep_view() == right.deep_view()),
{
    if left.len() != right.len() {
        assert(left.deep_view().len() != right.deep_view().len());
        return false;
    }
    let mut i: usize = 0;
    while i < left.len()
        invariant
            i <= left@.len(),
            left@.len() == right@.len(),
            forall|j: int| 0 <= j < i ==> (#[trigger] left@[j])@ == right@[j]@,
        decreases left@.len() - i,
    {
        if !(left[i] == right[i]) {
            assert(left.deep_view()[i as int] != right.deep_view()[i as int]);
            return false;
        }
        i += 1;
    }
    assert(left.deep_view() =~= right.deep_view());
    true
}

/// Whether two chunk lists are equal. No list and an empty list differ.
pub fn same_chunks(left: &Option<Vec<String>>, right: &Option<Vec<String>>) -> (same: bool)
    ensures
        same == (left.deep_view() == right.deep_view()),
{
    match left {
        None => match right {
            None => true,
            Some(_) => false,
        },
        Some(l) => match right {
            None => false,
            Some(r) => same_digests(l, r),
        },
    }
}

} // verus!
