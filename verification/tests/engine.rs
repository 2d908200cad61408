use candela::duplicates::content::CandidateFile;
use candela::duplicates::content::SourceBytes;
use candela::duplicates::grouping::group_bucket;
use candela::duplicates::grouping::group_same_content;
use candela::duplicates::index::map_path_by_filesize;
use candela::duplicates::index::get_sizes_with_multiple_files;
use candela::duplicates::index::FileRecord;
use candela::duplicates::walker::MatchingFilesGroups;

fn readable(path: &str, bytes: Vec<u8>) -> CandidateFile {
    CandidateFile {
        path: path.to_string(),
        source: Some(SourceBytes { bytes, complete: true }),
    }
}

fn unopenable(path: &str) -> CandidateFile {
    CandidateFile { path: path.to_string(), source: None }
}

fn truncated(path: &str, bytes: Vec<u8>) -> CandidateFile {
    CandidateFile {
        path: path.to_string(),
        source: Some(SourceBytes { bytes, complete: false }),
    }
}

/// Normalise a group list to a set-like form: paths sorted inside each
/// group, groups sorted by first path.
fn normalized(groups: Vec<Vec<String>>) -> Vec<Vec<String>> {
    let mut gs: Vec<Vec<String>> = groups
        .into_iter()
        .map(|mut g| {
            g.sort();
            g
        })
        .collect();
    gs.sort();
    gs
}

#[test]
fn zero_length_files_group_together() {
    let cands = vec![readable("a", vec![]), readable("b", vec![]), readable("c", vec![])];
    let groups = group_bucket(cands);
    assert_eq!(groups.len(), 1);
    assert_eq!(groups[0], vec!["a".to_string(), "b".to_string(), "c".to_string()]);
}

#[test]
fn difference_after_first_chunk_is_seen() {
    // Identical for the first 2048 bytes, different at byte 2050.
    let mut one = vec![7u8; 3000];
    let mut two = vec![7u8; 3000];
    two[2049] = 8;
    assert_eq!(one[..2048], two[..2048]);
    let groups = group_bucket(vec![readable("a", one.clone()), readable("b", two)]);
    assert!(groups.is_empty());
    // The same prefix with equal tails does group.
    one[2049] = 7;
    let again = group_bucket(vec![readable("a", one.clone()), readable("b", one)]);
    assert_eq!(again.len(), 1);
    assert_eq!(again[0].len(), 2);
}

#[test]
fn hello_hello_hellp() {
    let groups = group_bucket(vec![
        readable("a", b"hello".to_vec()),
        readable("b", b"hello".to_vec()),
        readable("c", b"hellp".to_vec()),
    ]);
    assert_eq!(groups.len(), 1);
    assert_eq!(groups[0], vec!["a".to_string(), "b".to_string()]);
    for g in &groups {
        assert!(!g.contains(&"c".to_string()));
    }
}

#[test]
fn ten_identical_files_one_group() {
    let mut cands = Vec::new();
    let names: Vec<String> = (0..10).map(|i| format!("file{}", i)).collect();
    for name in &names {
        cands.push(readable(name, vec![42u8; 100]));
    }
    let groups = group_bucket(cands);
    assert_eq!(groups.len(), 1);
    assert_eq!(groups[0].len(), 10);
    for name in &names {
        assert!(groups[0].contains(name));
    }
}

#[test]
fn unreadable_candidate_is_silently_excluded() {
    let groups = group_bucket(vec![
        readable("a", b"same".to_vec()),
        unopenable("gone"),
        readable("b", b"same".to_vec()),
    ]);
    assert_eq!(groups.len(), 1);
    assert_eq!(normalized(groups)[0], vec!["a".to_string(), "b".to_string()]);
}

#[test]
fn read_failure_counts_as_mismatch() {
    // A file whose reads fail mid-way never joins a group, even when the
    // bytes read so far agree.
    let groups = group_bucket(vec![
        readable("a", b"abcdef".to_vec()),
        truncated("flaky", b"abc".to_vec()),
        readable("b", b"abcdef".to_vec()),
    ]);
    assert_eq!(groups.len(), 1);
    assert_eq!(normalized(groups)[0], vec!["a".to_string(), "b".to_string()]);
}

#[test]
fn one_pass_splits_on_the_first_opened_candidate() {
    let (matching, rest) = group_same_content(vec![
        readable("p", b"xy".to_vec()),
        readable("m", b"xy".to_vec()),
        readable("n", b"zz".to_vec()),
    ]);
    assert_eq!(matching, vec!["p".to_string(), "m".to_string()]);
    assert_eq!(rest.len(), 1);
    assert_eq!(rest[0].path, "n");
}

#[test]
fn grouping_is_maximal_per_content() {
    // Two contents, two groups, nothing lost.
    let groups = normalized(group_bucket(vec![
        readable("a1", b"aaaa".to_vec()),
        readable("b1", b"bbbb".to_vec()),
        readable("a2", b"aaaa".to_vec()),
        readable("b2", b"bbbb".to_vec()),
        readable("c", b"cccc".to_vec()),
    ]));
    assert_eq!(groups.len(), 2);
    assert!(groups.contains(&vec!["a1".to_string(), "a2".to_string()]));
    assert!(groups.contains(&vec!["b1".to_string(), "b2".to_string()]));
}

#[test]
fn engine_is_order_independent() {
    let forward = vec![
        readable("a", b"one".to_vec()),
        readable("b", b"two".to_vec()),
        readable("c", b"one".to_vec()),
        readable("d", b"two".to_vec()),
    ];
    let backward = vec![
        readable("d", b"two".to_vec()),
        readable("c", b"one".to_vec()),
        readable("b", b"two".to_vec()),
        readable("a", b"one".to_vec()),
    ];
    let g1 = normalized(group_bucket(forward));
    let g2 = normalized(group_bucket(backward));
    assert_eq!(g1, g2);
    assert_eq!(g1.len(), 2);
}

#[test]
fn running_twice_yields_the_same_groups() {
    let make = || {
        vec![
            readable("x", vec![1, 2, 3]),
            readable("y", vec![1, 2, 3]),
            readable("z", vec![9, 9, 9]),
        ]
    };
    let first = normalized(group_bucket(make()));
    let second = normalized(group_bucket(make()));
    assert_eq!(first, second);
}

#[test]
fn size_index_keeps_only_sizes_with_two_files() {
    let records = vec![
        FileRecord { path: "a".to_string(), size: 5 },
        FileRecord { path: "b".to_string(), size: 5 },
        FileRecord { path: "lonely".to_string(), size: 7 },
        FileRecord { path: "c".to_string(), size: 100 },
        FileRecord { path: "d".to_string(), size: 100 },
        FileRecord { path: "e".to_string(), size: 100 },
    ];
    let m = map_path_by_filesize(records);
    let mut buckets = get_sizes_with_multiple_files(&m);
    buckets.sort_by_key(|b| b.size);
    assert_eq!(buckets.len(), 2);
    assert_eq!(buckets[0].size, 5);
    assert_eq!(buckets[0].paths, vec!["a".to_string(), "b".to_string()]);
    assert_eq!(buckets[1].size, 100);
    assert_eq!(
        buckets[1].paths,
        vec!["c".to_string(), "d".to_string(), "e".to_string()]
    );
}

#[test]
fn files_of_differing_size_never_meet() {
    // Same content length is required before any content comparison:
    // equal-content files of different reported size sit in different
    // buckets and are never grouped.
    let records = vec![
        FileRecord { path: "small".to_string(), size: 3 },
        FileRecord { path: "big".to_string(), size: 4 },
    ];
    let m = map_path_by_filesize(records);
    let buckets = get_sizes_with_multiple_files(&m);
    assert!(buckets.is_empty());
}

#[test]
fn result_set_collects_sorts_and_counts() {
    let buckets = vec![
        vec![
            readable("dir/z1", b"zz".to_vec()),
            readable("dir/z2", b"zz".to_vec()),
        ],
        vec![
            readable("dir/a1", b"aaa".to_vec()),
            readable("dir/a2", b"aaa".to_vec()),
            readable("dir/solo", b"xyz".to_vec()),
        ],
    ];
    let mut out = MatchingFilesGroups::from_size_groups(buckets);
    out.sort();
    assert_eq!(out.len(), 2);
    assert_eq!(out.total_files(), 4);
    let groups = out.as_string_iters();
    assert_eq!(groups[0], vec!["dir/a1".to_string(), "dir/a2".to_string()]);
    assert_eq!(groups[1], vec!["dir/z1".to_string(), "dir/z2".to_string()]);
}

#[test]
fn empty_run_has_no_groups() {
    let out = MatchingFilesGroups::from_size_groups(Vec::new());
    assert_eq!(out.len(), 0);
    assert_eq!(out.total_files(), 0);
    assert!(out.as_string_iters().is_empty());
}
