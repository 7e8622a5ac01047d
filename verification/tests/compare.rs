use tuxkitchen::compare::{
    chunk_verdict, diff_entry, listing_sorted, needs_content_check, pair_paths, summarize, FileFacts, PathPair,
    Side, DEFAULT_CAP,
};

fn listing(v: &[(&str, bool)]) -> Vec<(String, bool)> {
    let mut out: Vec<(String, bool)> = v.iter().map(|(p, d)| (p.to_string(), *d)).collect();
    out.sort();
    out
}

fn facts_for(pairs: &[PathPair], sizes: &dyn Fn(&str) -> (Option<u64>, Option<u64>, bool)) -> Vec<FileFacts> {
    pairs
        .iter()
        .map(|p| {
            let (l, r, differ) = sizes(&p.path);
            FileFacts { left_size: l, right_size: r, differ: needs_content_check(p.side) && differ }
        })
        .collect()
}

#[test]
fn covers_all_statuses() {
    let left = listing(&[
        ("same_dir", true),
        ("same_dir/inner.txt", false),
        ("identical.txt", false),
        ("changed.txt", false),
        ("same_size_differs.bin", false),
        ("removed_only.txt", false),
        ("type_changed", false),
    ]);
    let right = listing(&[
        ("same_dir", true),
        ("identical.txt", false),
        ("changed.txt", false),
        ("same_size_differs.bin", false),
        ("added_only.txt", false),
        ("type_changed", true),
        ("type_changed/now_dir.txt", false),
    ]);
    assert!(listing_sorted(&left) && listing_sorted(&right));
    let pairs = pair_paths(&left, &right);
    let paths: Vec<&str> = pairs.iter().map(|p| p.path.as_str()).collect();
    let mut expected: Vec<&str> = vec![
        "added_only.txt", "changed.txt", "identical.txt", "removed_only.txt", "same_dir", "same_dir/inner.txt",
        "same_size_differs.bin", "type_changed", "type_changed/now_dir.txt",
    ];
    expected.sort();
    assert_eq!(paths, expected);
    let facts = facts_for(&pairs, &|p| match p {
        "changed.txt" => (Some(12), Some(12), true),
        "same_size_differs.bin" => (Some(512), Some(512), true),
        _ => (Some(3), Some(3), false),
    });
    let res = summarize(&pairs, &facts, 1000);
    let status_of = |p: &str| res.entries.iter().find(|e| e.path == p).map(|e| e.status.clone());
    assert_eq!(status_of("identical.txt").as_deref(), Some("identical"));
    assert_eq!(status_of("changed.txt").as_deref(), Some("changed"));
    assert_eq!(status_of("same_size_differs.bin").as_deref(), Some("changed"));
    assert_eq!(status_of("removed_only.txt").as_deref(), Some("removed"));
    assert_eq!(status_of("added_only.txt").as_deref(), Some("added"));
    assert_eq!(status_of("type_changed").as_deref(), Some("type-changed"));
    assert_eq!(status_of("same_dir").as_deref(), Some("identical"));
    assert_eq!(status_of("same_dir/inner.txt").as_deref(), Some("removed"));
    assert_eq!(res.summary.changed, 2);
    assert_eq!(res.summary.removed, 2);
    assert_eq!(res.summary.added, 2);
    assert_eq!(res.summary.type_changed, 1);
    assert_eq!(res.summary.identical, 2);
    assert!(!res.summary.truncated);
}

#[test]
fn truncates_at_cap() {
    let names: Vec<String> = (0..20).map(|i| format!("f{}.txt", i)).collect();
    let right = listing(&names.iter().map(|n| (n.as_str(), false)).collect::<Vec<_>>());
    let pairs = pair_paths(&[], &right);
    let facts = facts_for(&pairs, &|_| (None, Some(3), false));
    let res = summarize(&pairs, &facts, 10);
    assert_eq!(res.entries.len(), 10);
    assert_eq!(res.summary.added, 20);
    assert!(res.summary.truncated);
    let exact = summarize(&pairs, &facts, 20);
    assert_eq!(exact.entries.len(), 20);
    assert!(!exact.summary.truncated);
    assert_eq!(DEFAULT_CAP, 50000);
}

#[test]
fn entry_sizes_follow_the_side() {
    let f = FileFacts { left_size: Some(5), right_size: Some(9), differ: true };
    let e = diff_entry(&PathPair { path: "a".into(), side: Side::LeftOnly(false) }, f);
    assert_eq!((e.status.as_str(), e.left_size, e.right_size, e.is_dir), ("removed", Some(5), None, false));
    let e = diff_entry(&PathPair { path: "d".into(), side: Side::RightOnly(true) }, f);
    assert_eq!((e.status.as_str(), e.left_size, e.right_size, e.is_dir), ("added", None, None, true));
    let e = diff_entry(&PathPair { path: "x".into(), side: Side::Both { left_dir: true, right_dir: false } }, f);
    assert_eq!((e.status.as_str(), e.is_dir), ("type-changed", true));
    let e = diff_entry(&PathPair { path: "y".into(), side: Side::Both { left_dir: false, right_dir: false } }, f);
    assert_eq!((e.status.as_str(), e.left_size, e.right_size), ("changed", Some(5), Some(9)));
    assert!(needs_content_check(Side::Both { left_dir: false, right_dir: false }));
    assert!(!needs_content_check(Side::Both { left_dir: true, right_dir: true }));
    assert!(!needs_content_check(Side::LeftOnly(false)));
}

#[test]
fn compares_large_files_in_chunks() {
    let a = vec![7u8; 1024];
    let mut b = a.clone();
    assert_eq!(chunk_verdict(&a, &b), None);
    b[1023] = 8;
    assert_eq!(chunk_verdict(&a, &b), Some(true));
    assert_eq!(chunk_verdict(&a, &a[..10]), Some(true));
    assert_eq!(chunk_verdict(&[], &[]), Some(false));
}

#[test]
fn unsorted_listings_are_noticed() {
    let v = vec![("b".to_string(), false), ("a".to_string(), false)];
    assert!(!listing_sorted(&v));
    let dup = vec![("a".to_string(), false), ("a".to_string(), true)];
    assert!(!listing_sorted(&dup));
    assert!(listing_sorted(&[]));
}
