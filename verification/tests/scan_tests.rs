use difftool::fingerprint::Fingerprint;
use difftool::priority::{
    file_features, prioritize, FileFeatures, NeutralScorer, PriorityScorer, ScoredPath,
};
use difftool::report::{output_operations, render_operation};
use difftool::diff::{DiffOperation, OpKind};
use difftool::scanner::{collect_paths_with_priority, EntryKind, WalkEntry};
use difftool::scheduler::{file_fingerprint, hash_files_to_fingerprints, scan_directory};

fn entry(path: &str, relative: Option<&str>, kind: EntryKind) -> Option<WalkEntry> {
    Some(WalkEntry {
        path: path.to_string(),
        relative_path: relative.map(|r| r.to_string()),
        kind,
    })
}

fn scored(score: i64, path: &str, relative: Option<&str>) -> ScoredPath {
    ScoredPath {
        score,
        path: path.to_string(),
        relative_path: relative.map(|r| r.to_string()),
    }
}

fn digests(names: &[&str]) -> Vec<String> {
    names.iter().map(|name| name.to_string()).collect()
}

struct LongestFirst;

impl PriorityScorer for LongestFirst {
    fn score(&self, path: &str, root: &str) -> i64 {
        (path.len() - root.len()) as i64
    }
}

fn walk() -> Vec<Option<WalkEntry>> {
    vec![
        entry("root", Some(""), EntryKind::Directory),
        entry("root/a.txt", Some("a.txt"), EntryKind::File),
        None,
        entry("root/sub", Some("sub"), EntryKind::Directory),
        entry("root/sub/long_name.bin", Some("sub/long_name.bin"), EntryKind::File),
        entry("root/link", Some("link"), EntryKind::Other),
        entry("elsewhere/x", None, EntryKind::File),
        entry("elsewhere", None, EntryKind::Directory),
        entry("root/sub/b.txt", Some("sub/b.txt"), EntryKind::File),
        entry("root/c.txt", Some("c.txt"), EntryKind::File),
    ]
}

#[test]
fn neutral_scorer_scores_zero() {
    assert_eq!(NeutralScorer.score("root/a.txt", "root"), 0);
    assert_eq!(NeutralScorer.score("", ""), 0);
}

#[test]
fn walk_is_sorted_into_files_and_directories() {
    let (files, dirs) = collect_paths_with_priority("root", &walk(), &NeutralScorer);
    assert_eq!(
        dirs,
        vec![Fingerprint::directory("".to_string()), Fingerprint::directory("sub".to_string())]
    );
    assert_eq!(
        files,
        vec![
            scored(0, "root/a.txt", Some("a.txt")),
            scored(0, "root/sub/long_name.bin", Some("sub/long_name.bin")),
            scored(0, "root/sub/b.txt", Some("sub/b.txt")),
            scored(0, "root/c.txt", Some("c.txt")),
        ]
    );
}

#[test]
fn directories_have_no_chunks() {
    let (_, dirs) = collect_paths_with_priority("root", &walk(), &NeutralScorer);
    for dir in dirs {
        assert!(dir.is_dir);
        assert_eq!(dir.chunks, None);
    }
}

#[test]
fn higher_score_comes_first() {
    let (files, dirs) = collect_paths_with_priority("root", &walk(), &LongestFirst);
    assert_eq!(dirs.len(), 2);
    assert_eq!(
        files,
        vec![
            scored(18, "root/sub/long_name.bin", Some("sub/long_name.bin")),
            scored(10, "root/sub/b.txt", Some("sub/b.txt")),
            scored(6, "root/a.txt", Some("a.txt")),
            scored(6, "root/c.txt", Some("c.txt")),
        ]
    );
}

#[test]
fn empty_walk_finds_nothing() {
    let (files, dirs) = collect_paths_with_priority("root", &vec![], &NeutralScorer);
    assert_eq!(files, vec![]);
    assert_eq!(dirs, vec![]);
    let (files, dirs) = collect_paths_with_priority("root", &vec![None, None], &NeutralScorer);
    assert_eq!(files, vec![]);
    assert_eq!(dirs, vec![]);
}

#[test]
fn prioritize_is_stable_and_descending() {
    let files = vec![
        scored(1, "a", Some("a")),
        scored(5, "b", Some("b")),
        scored(1, "c", Some("c")),
        scored(-3, "d", Some("d")),
        scored(5, "e", Some("e")),
        scored(i64::MAX, "f", Some("f")),
        scored(i64::MIN, "g", Some("g")),
        scored(1, "h", Some("h")),
    ];
    let ordered = prioritize(files);
    let paths: Vec<&str> = ordered.iter().map(|file| file.path.as_str()).collect();
    assert_eq!(paths, vec!["f", "b", "e", "a", "c", "h", "d", "g"]);
}

#[test]
fn prioritize_keeps_every_file() {
    let files: Vec<ScoredPath> =
        (0..100).map(|i| scored((i * 37) % 11, &format!("f{}", i), Some("x"))).collect();
    let ordered = prioritize(files.clone());
    assert_eq!(ordered.len(), files.len());
    for file in &files {
        assert!(ordered.contains(file));
    }
    for pair in ordered.windows(2) {
        assert!(pair[0].score >= pair[1].score);
    }
}

#[test]
fn features_of_a_file() {
    assert_eq!(
        file_features(1234, Some("uasset"), 3),
        FileFeatures { size: 1234, extension_class: 661, depth: 3, is_asset: true }
    );
    assert_eq!(
        file_features(0, Some("umap"), 1),
        FileFeatures { size: 0, extension_class: 435, depth: 1, is_asset: true }
    );
    assert_eq!(
        file_features(u64::MAX, Some("txt"), 0),
        FileFeatures { size: u64::MAX, extension_class: 352, depth: 0, is_asset: false }
    );
    assert_eq!(
        file_features(5, None, 2),
        FileFeatures { size: 5, extension_class: 0, depth: 2, is_asset: false }
    );
    assert_eq!(
        file_features(5, Some(""), 2),
        FileFeatures { size: 5, extension_class: 0, depth: 2, is_asset: false }
    );
    assert_eq!(
        file_features(5, Some("zzzzzzzzzz"), 2),
        FileFeatures { size: 5, extension_class: 220, depth: 2, is_asset: false }
    );
    assert_eq!(
        file_features(5, Some("UASSET"), 2),
        FileFeatures { size: 5, extension_class: 469, depth: 2, is_asset: false }
    );
}

#[test]
fn fingerprint_of_one_file() {
    let file = scored(0, "root/a", Some("a"));
    assert_eq!(
        file_fingerprint(&file, Some(digests(&["h1", "h2"]))),
        Some(Fingerprint {
            relative_path: "a".to_string(),
            is_dir: false,
            chunks: Some(digests(&["h1", "h2"])),
        })
    );
    assert_eq!(
        file_fingerprint(&file, Some(vec![])),
        Some(Fingerprint { relative_path: "a".to_string(), is_dir: false, chunks: Some(vec![]) })
    );
    assert_eq!(file_fingerprint(&file, None), None);
    let lost = scored(0, "elsewhere/a", None);
    assert_eq!(file_fingerprint(&lost, Some(digests(&["h1"]))), None);
    assert_eq!(file_fingerprint(&lost, None), None);
}

#[test]
fn failure_of_one_file_leaves_the_others() {
    let files = vec![
        scored(3, "root/a", Some("a")),
        scored(2, "root/b", Some("b")),
        scored(1, "root/c", Some("c")),
        scored(0, "root/d", Some("d")),
    ];
    let outcomes = vec![Some(digests(&["a1"])), None, Some(digests(&[])), Some(digests(&["d1", "d2"]))];
    assert_eq!(
        hash_files_to_fingerprints(&files, outcomes),
        vec![
            Fingerprint::file("a".to_string(), digests(&["a1"])),
            Fingerprint::file("c".to_string(), digests(&[])),
            Fingerprint::file("d".to_string(), digests(&["d1", "d2"])),
        ]
    );
    let all_failed = vec![None, None, None, None];
    assert_eq!(hash_files_to_fingerprints(&files, all_failed), vec![]);
}

#[test]
fn file_without_relative_path_has_no_fingerprint() {
    let files = vec![scored(0, "elsewhere/a", None), scored(0, "root/b", Some("b"))];
    let outcomes = vec![Some(digests(&["a1"])), Some(digests(&["b1"]))];
    assert_eq!(
        hash_files_to_fingerprints(&files, outcomes),
        vec![Fingerprint::file("b".to_string(), digests(&["b1"]))]
    );
}

#[test]
fn outcomes_are_read_side_by_side_with_the_files() {
    let files = vec![scored(0, "root/a", Some("a")), scored(0, "root/b", Some("b"))];
    let short = vec![Some(digests(&["a1"]))];
    assert_eq!(
        hash_files_to_fingerprints(&files, short),
        vec![Fingerprint::file("a".to_string(), digests(&["a1"]))]
    );
    let long = vec![Some(digests(&["a1"])), Some(digests(&["b1"])), Some(digests(&["c1"]))];
    assert_eq!(
        hash_files_to_fingerprints(&files, long),
        vec![
            Fingerprint::file("a".to_string(), digests(&["a1"])),
            Fingerprint::file("b".to_string(), digests(&["b1"])),
        ]
    );
    assert_eq!(hash_files_to_fingerprints(&vec![], vec![]), vec![]);
}

#[test]
fn scan_is_files_then_directories() {
    let files = vec![scored(0, "root/a", Some("a")), scored(0, "root/b", Some("b"))];
    let outcomes = vec![None, Some(digests(&["b1"]))];
    let dirs = vec![Fingerprint::directory("".to_string()), Fingerprint::directory("sub".to_string())];
    assert_eq!(
        scan_directory(&files, outcomes, dirs),
        vec![
            Fingerprint::file("b".to_string(), digests(&["b1"])),
            Fingerprint::directory("".to_string()),
            Fingerprint::directory("sub".to_string()),
        ]
    );
}

#[test]
fn fingerprint_constructors() {
    assert_eq!(
        Fingerprint::directory("d".to_string()),
        Fingerprint { relative_path: "d".to_string(), is_dir: true, chunks: None }
    );
    assert_eq!(
        Fingerprint::file("f".to_string(), vec![]),
        Fingerprint { relative_path: "f".to_string(), is_dir: false, chunks: Some(vec![]) }
    );
}

#[test]
fn operations_as_lines() {
    let operations = vec![
        DiffOperation { op: OpKind::Delete, path: "a.txt".to_string() },
        DiffOperation { op: OpKind::Copy, path: "dir/c.bin".to_string() },
        DiffOperation { op: OpKind::Create, path: "b b.txt".to_string() },
    ];
    assert_eq!(
        output_operations(&operations),
        vec!["delete `a.txt`", "copy `dir/c.bin`", "create `b b.txt`"]
    );
    assert_eq!(output_operations(&vec![]), Vec::<String>::new());
    assert_eq!(render_operation(&operations[2]), "create `b b.txt`");
    assert_eq!(
        render_operation(&DiffOperation { op: OpKind::Create, path: String::new() }),
        "create ``"
    );
}
