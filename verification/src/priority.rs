//! Priority of files: which of them are fingerprinted first.
//!
//! A score is a whole number; a file with a higher score comes before one
//! with a lower score. The score decides the order of the work and nothing
//! else: every file that was found is in the ordered list, whatever its
//! score.

use vstd::prelude::*;
use vstd::string::*;

verus! {

/// A way to score the files of a tree. A score says how early a file is
/// fingerprinted and nothing else; a scorer that cannot score a file
/// gives it `NEUTRAL_SCORE`.
pub trait PriorityScorer {
    /// Whether `score` is a score that this scorer may give `path` in a
    /// scan of `root`. A scorer that says nothing of its scores allows
    /// every score.
    open spec fn allows(&self, path: Seq<char>, root: Seq<char>, score: i64) -> bool {
        true
    }

    /// Computes the score of `path` in a scan of `root`.
    fn score(&self, path: &str, root: &str) -> (score: i64)
        ensures
            self.allows(path@, root@, score),
    ;
}

/// The score that means no preference.
pub const NEUTRAL_SCORE: i64 = 0;

/// The scorer that gives every file the same score, so that the files
/// stay in the order in which they were found.
#[derive(Clone, Copy, Debug)]
pub struct NeutralScorer;

impl PriorityScorer for NeutralScorer {
    open spec fn allows(&self, path: Seq<char>, root: Seq<char>, score: i64) -> bool {
        score == NEUTRAL_SCORE
    }

    fn score(&self, path: &str, root: &str) -> (score: i64) {
        NEUTRAL_SCORE
    }
}

/// A file that waits to be fingerprinted.
#[derive(Clone, Debug, PartialEq, Eq)]
pub struct ScoredPath {
    /// The priority of the file.
    pub score: i64,
    /// The path by which the file is opened.
    pub path: String,
    /// The path below the root of the scan, or `None` where it could not
    /// be derived.
    pub relative_path: Option<String>,
}

/// The mathematical content of a `ScoredPath`.
pub struct ScoredPathView {
    pub score: i64,
    pub path: Seq<char>,
    pub relative_path: Option<Seq<char>>,
}

impl View for ScoredPath {
    type V = ScoredPathView;

    open spec fn view(&self) -> ScoredPathView {
        ScoredPathView {
            score: self.score,
            path: self.path@,
            relative_path: self.relative_path.deep_view(),
        }
    }
}

impl DeepView for ScoredPath {
    type V = ScoredPathView;

    open spec fn deep_view(&self) -> ScoredPathView {
        self@
    }
}

/// Whether no file comes before one with a higher score.
pub open spec fn in_priority_order(files: Seq<ScoredPathView>) -> bool {
    forall|i: int, j: int| 0 <= i < j < files.len() ==> files[i].score >= files[j].score
}

/// The test for the given score.
pub open spec fn has_score(score: i64) -> spec_fn(ScoredPathView) -> bool {
    |file: ScoredPathView| file.score == score
}

/// The files that have the given score, in the order of `files`.
pub open spec fn with_score(files: Seq<ScoredPathView>, score: i64) -> Seq<ScoredPathView> {
    files.filter(has_score(score))
}

/// Whether `ordered` holds the files of `found` by descending score, and
/// those of equal score in the order in which `found` has them.
pub open spec fn is_priority_order_of(
    ordered: Seq<ScoredPathView>,
    found: Seq<ScoredPathView>,
) -> bool {
    &&& ordered.len() == found.len()
    &&& in_priority_order(ordered)
    &&& forall|score: i64| #[trigger] with_score(ordered, score) == with_score(found, score)
}

/// Ordering by priority neither drops nor adds a file.
pub proof fn lemma_priority_order_keeps_files(
    ordered: Seq<ScoredPathView>,
    found: Seq<ScoredPathView>,
    file: ScoredPathView,
)
    requires
        is_priority_order_of(ordered, found),
    ensures
        ordered.contains(file) <==> found.contains(file),
{
    let same_score = has_score(file.score);
    assert(with_score(ordered, file.score) == with_score(found, file.score));
    if ordered.contains(file) {
        let i = choose|i: int| 0 <= i < ordered.len() && ordered[i] == file;
        ordered.lemma_filter_contains(same_score, i);
        found.lemma_filter_contains_rev(same_score, file);
    }
    if found.contains(file) {
        let i = choose|i: int| 0 <= i < found.len() && found[i] == file;
        found.lemma_filter_contains(same_score, i);
        ordered.lemma_filter_contains_rev(same_score, file);
    }
}

/// A test that every file passes lets the whole list through.
proof fn lemma_filter_keeps_all(
    files: Seq<ScoredPathView>,
    test: spec_fn(ScoredPathView) -> bool,
)
    requires
        forall|k: int| 0 <= k < files.len() ==> test(#[trigger] files[k]),
    ensures
        files.filter(test) == files,
    decreases files.len(),
{
    reveal(Seq::filter);
    if files.len() > 0 {
        lemma_filter_keeps_all(files.drop_last(), test);
        assert(files.drop_last().push(files.last()) =~= files);
    }
}

/// A test that lets through as many files as there are lets the whole
/// list through.
proof fn lemma_full_filter_is_all(
    files: Seq<ScoredPathView>,
    test: spec_fn(ScoredPathView) -> bool,
)
    requires
        files.filter(test).len() == files.len(),
    ensures
        files.filter(test) == files,
    decreases files.len(),
{
    reveal(Seq::filter);
    if files.len() > 0 {
        let init = files.drop_last();
        init.lemma_filter_len(test);
        if test(files.last()) {
            lemma_full_filter_is_all(init, test);
            assert(init.push(files.last()) =~= files);
        }
    }
}

/// Where all files have the same score, priority has no effect: the
/// files stay in the order in which they were found.
pub proof fn lemma_equal_scores_keep_order(
    ordered: Seq<ScoredPathView>,
    found: Seq<ScoredPathView>,
    score: i64,
)
    requires
        is_priority_order_of(ordered, found),
        forall|k: int| 0 <= k < found.len() ==> (#[trigger] found[k]).score == score,
    ensures
        ordered == found,
{
    lemma_filter_keeps_all(found, has_score(score));
    assert(with_score(ordered, score) == with_score(found, score));
    lemma_full_filter_is_all(ordered, has_score(score));
}

/// Two lists in priority order that hold the same files of each score in
/// the same order are the same list.
proof fn lemma_same_order(first: Seq<ScoredPathView>, second: Seq<ScoredPathView>)
    requires
        is_priority_order_of(first, second),
        in_priority_order(second),
    ensures
        first == second,
    decreases first.len(),
{
    reveal(Seq::filter);
    if first.len() > 0 {
        let a = first.last();
        let b = second.last();
        assert(with_score(first, a.score) == with_score(second, a.score));
        assert(with_score(first, b.score) == with_score(second, b.score));
        assert(with_score(first, a.score).last() == a);
        assert(with_score(second, b.score).last() == b);
        assert(with_score(second, a.score).contains(a)) by {
            assert(with_score(first, a.score)[with_score(first, a.score).len() - 1] == a);
        }
        second.lemma_filter_contains_rev(has_score(a.score), a);
        assert(with_score(first, b.score).contains(b)) by {
            assert(with_score(second, b.score)[with_score(second, b.score).len() - 1] == b);
        }
        first.lemma_filter_contains_rev(has_score(b.score), b);
        let i = choose|i: int| 0 <= i < second.len() && second[i] == a;
        let j = choose|j: int| 0 <= j < first.len() && first[j] == b;
        assert(second[i].score >= second[second.len() - 1].score);
        assert(first[j].score >= first[first.len() - 1].score);
        assert(a.score == b.score);
        assert(a == b);
        let first_init = first.drop_last();
        let second_init = second.drop_last();
        assert forall|score: i64| #[trigger]
            with_score(first_init, score) == with_score(second_init, score) by {
            assert(with_score(first, score) == with_score(second, score));
            if score == a.score {
                assert(with_score(first_init, score) =~= with_score(first, score).drop_last());
                assert(with_score(second_init, score) =~= with_score(second, score).drop_last());
            }
        }
        assert(in_priority_order(first_init)) by {
            assert forall|i: int, j: int| 0 <= i < j < first_init.len() implies first_init[i].score
                >= first_init[j].score by {
                assert(first_init[i] == first[i]);
                assert(first_init[j] == first[j]);
            }
        }
        assert(in_priority_order(second_init)) by {
            assert forall|i: int, j: int|
                0 <= i < j < second_init.len() implies second_init[i].score
                >= second_init[j].score by {
                assert(second_init[i] == second[i]);
                assert(second_init[j] == second[j]);
            }
        }
        lemma_same_order(first_init, second_init);
        assert(first =~= first_init.push(a));
        assert(second =~= second_init.push(b));
    } else {
        assert(first =~= second);
    }
}

/// The priority order of a list is one list and no other: the score
/// and the order of finding decide the place of every file.
pub proof fn lemma_priority_order_is_unique(
    first: Seq<ScoredPathView>,
    second: Seq<ScoredPathView>,
    found: Seq<ScoredPathView>,
)
    requires
        is_priority_order_of(first, found),
        is_priority_order_of(second, found),
    ensures
        first == second,
{
    assert forall|score: i64| #[trigger]
        with_score(first, score) == with_score(second, score) by {
        assert(with_score(first, score) == with_score(found, score));
        assert(with_score(second, score) == with_score(found, score));
    }
    lemma_same_order(first, second);
}

/// Sorts with `Vec::sort_by_key`, the key being the score in reverse.
///
/// Taken on trust from the documentation of the standard library: the
/// sort puts the items in ascending order of the key, which is descending
/// order of the score, and keeps items of equal key in the order that they
/// had.
#[verifier::external_body]
fn sort_by_descending_score(files: &mut Vec<ScoredPath>)
    ensures
        is_priority_order_of(final(files).deep_view(), old(files).deep_view()),
{
    files.sort_by_key(|file| std::cmp::Reverse(file.score));
}

/// Puts the files in priority order: by descending score, files of equal
/// score in the order in which they came.
pub fn prioritize(files: Vec<ScoredPath>) -> (ordered: Vec<ScoredPath>)
    ensures
        is_priority_order_of(ordered.deep_view(), files.deep_view()),
{
    let mut ordered: Vec<ScoredPath> = files;
    sort_by_descending_score(&mut ordered);
    ordered
}

/// What a scorer may look at to rank a file.
#[derive(Clone, Copy, Debug, PartialEq, Eq, Structural)]
pub struct FileFeatures {
    /// The size of the file in bytes.
    pub size: u64,
    /// The class of the extension, from 0 to 999.
    pub extension_class: u32,
    /// The number of components of the path below the root.
    pub depth: usize,
    /// Whether the extension is that of a game asset.
    pub is_asset: bool,
}

/// The sum of the bytes.
pub open spec fn byte_sum(bytes: Seq<u8>) -> nat
    decreases bytes.len(),
{
    if bytes.len() == 0 {
        0
    } else {
        byte_sum(bytes.drop_last()) + bytes.last() as nat
    }
}

/// The class of an extension: the sum of its bytes, modulo 1000.
pub open spec fn extension_class(extension: Seq<u8>) -> nat {
    byte_sum(extension) % 1000
}

/// Whether the extension is `uasset` or `umap`.
pub open spec fn is_asset_extension(extension: Seq<char>) -> bool {
    extension == "uasset"@ || extension == "umap"@
}

/// Computes the class of an extension, for an extension of any length.
fn classify_extension(extension: &[u8]) -> (class: u32)
    ensures
        class == extension_class(extension@),
{
    let mut class: u32 = 0;
    let mut i: usize = 0;
    while i < extension.len()
        invariant
            i <= extension@.len(),
            class < 1000,
            class == byte_sum(extension@.take(i as int)) % 1000,
        decreases extension@.len() - i,
    {
        let ghost before = byte_sum(extension@.take(i as int));
        proof {
            assert(extension@.take(i + 1).drop_last() =~= extension@.take(i as int));
            assert(extension@.take(i + 1).last() == extension@[i as int]);
            assert(byte_sum(extension@.take(i + 1)) == before + extension@[i as int]);
            vstd::arithmetic::div_mod::lemma_add_mod_noop(
                before as int,
                extension@[i as int] as int,
                1000,
            );
        }
        class = (class + extension[i] as u32) % 1000;
        i += 1;
    }
    proof {
        assert(extension@.take(extension@.len() as int) =~= extension@);
    }
    class
}

/// Gathers what a scorer may look at: the size and the depth as they
/// are, the class of the extension, and whether it is that of a game
/// asset. A file without extension has class 0 and is no asset.
pub fn file_features(size: u64, extension: Option<&str>, depth: usize) -> (features: FileFeatures)
    ensures
        features.size == size,
        features.depth == depth,
        features.extension_class == match extension {
            Some(text) => extension_class(text.spec_bytes()),
            None => 0,
        },
        features.is_asset == match extension {
            Some(text) => is_asset_extension(text@),
            None => false,
        },
{
    match extension {
        None => FileFeatures { size, extension_class: 0, depth, is_asset: false },
        Some(text) => {
            let class: u32 = classify_extension(text.as_bytes());
            let owned: String = text.to_owned();
            let is_asset: bool = owned == "uasset".to_owned() || owned == "umap".to_owned();
            FileFeatures { size, extension_class: class, depth, is_asset }
        },
    }
}

} // verus!
