use ffcnt::engine::{sum_lengths, DirEntryRef, ScanState};
use ffcnt::file_type::{FileKind, FileTypeMatcher};
use ffcnt::policy::{Order, ScanConfig};

/// One simulated filesystem object.
struct Node {
    path: &'static str,
    parent: &'static str,
    kind: FileKind,
    ino: u64,
    size: u64,
    key: Option<u64>,
}

/// Drives a scan over a simulated tree exactly as the embedding program
/// drives it over a real one, and returns (file count, byte total, the
/// directories listed, the matched paths).
fn run_scan(config: ScanConfig, roots: Vec<&str>, tree: &[Node]) -> (u64, u64, Vec<String>, Vec<String>) {
    let roots: Vec<String> = roots.iter().map(|s| s.to_string()).collect();
    let mut st = ScanState::new(config, roots);
    let mut visited: Vec<String> = Vec::new();
    let mut matched: Vec<String> = Vec::new();
    loop {
        match st.next_dir() {
            None => break,
            Some(dir) => {
                visited.push(dir.clone());
                for n in tree.iter().filter(|n| n.parent == dir) {
                    let located = n.key;
                    let path = n.path.to_string();
                    let m = st.handle_entry(
                        DirEntryRef { path: path.clone(), kind: n.kind, ino: Some(n.ino) },
                        located,
                    );
                    if m {
                        matched.push(path);
                    }
                }
            }
        }
        if st.should_flush() {
            let batch = st.take_batch();
            let sizes: Vec<u64> = batch
                .iter()
                .map(|e| tree.iter().find(|n| n.path == e.path).unwrap().size)
                .collect();
            st.add_bytes(sum_lengths(&sizes).unwrap());
        }
    }
    if st.should_flush() {
        let batch = st.take_batch();
        let sizes: Vec<u64> = batch
            .iter()
            .map(|e| tree.iter().find(|n| n.path == e.path).unwrap().size)
            .collect();
        st.add_bytes(sum_lengths(&sizes).unwrap());
    }
    assert!(st.is_done());
    (st.file_count(), st.byte_total(), visited, matched)
}

fn small_tree() -> Vec<Node> {
    vec![
        Node { path: "/root/a.txt", parent: "/root", kind: FileKind::Regular, ino: 12, size: 4, key: None },
        Node { path: "/root/sub", parent: "/root", kind: FileKind::Directory, ino: 7, size: 0, key: Some(90) },
        Node { path: "/root/sub/b.txt", parent: "/root/sub", kind: FileKind::Regular, ino: 3, size: 6, key: None },
    ]
}

fn config(order: Option<Order>, want_size: bool, filter: Option<FileTypeMatcher>) -> ScanConfig {
    ScanConfig { order, want_size, list: false, filter, prefetch: false }
}

#[test]
fn end_to_end_counts_and_sizes_under_every_policy() {
    for order in [None, Some(Order::Content), Some(Order::Inode), Some(Order::Dentries)] {
        let (files, bytes, visited, _) =
            run_scan(config(order, true, None), vec!["/root"], &small_tree());
        assert_eq!(files, 2);
        assert_eq!(bytes, 10);
        assert_eq!(visited.len(), 2);
    }
}

/// A deeper tree whose physical keys run against discovery order, so a
/// content-ordered scan wraps its cursor mid-sweep.
fn deep_tree() -> Vec<Node> {
    vec![
        Node { path: "/r/d1", parent: "/r", kind: FileKind::Directory, ino: 20, size: 0, key: Some(100) },
        Node { path: "/r/d2", parent: "/r", kind: FileKind::Directory, ino: 10, size: 0, key: Some(200) },
        Node { path: "/r/f1", parent: "/r", kind: FileKind::Regular, ino: 40, size: 1, key: None },
        Node { path: "/r/d1/d3", parent: "/r/d1", kind: FileKind::Directory, ino: 30, size: 0, key: Some(50) },
        Node { path: "/r/d1/f2", parent: "/r/d1", kind: FileKind::Regular, ino: 5, size: 2, key: None },
        Node { path: "/r/d2/f3", parent: "/r/d2", kind: FileKind::Regular, ino: 60, size: 3, key: None },
        Node { path: "/r/d1/d3/f4", parent: "/r/d1/d3", kind: FileKind::Regular, ino: 2, size: 4, key: None },
        Node { path: "/r/d1/d3/s", parent: "/r/d1/d3", kind: FileKind::Symlink, ino: 70, size: 0, key: None },
    ]
}

#[test]
fn every_policy_counts_each_file_exactly_once() {
    // The unordered reference walk of the same tree finds 4 regular files.
    for order in [None, Some(Order::Content), Some(Order::Inode), Some(Order::Dentries)] {
        let (files, bytes, visited, matched) =
            run_scan(config(order, true, None), vec!["/r"], &deep_tree());
        assert_eq!(files, 4);
        assert_eq!(bytes, 10);
        assert_eq!(visited.len(), 4);
        let mut m = matched.clone();
        m.sort();
        m.dedup();
        assert_eq!(m.len(), 4, "no path may be matched twice");
    }
}

#[test]
fn filter_never_blocks_descent() {
    // Nested directories with no regular files anywhere.
    let tree = vec![
        Node { path: "/t/s1", parent: "/t", kind: FileKind::Directory, ino: 1, size: 0, key: Some(30) },
        Node { path: "/t/s1/s2", parent: "/t/s1", kind: FileKind::Directory, ino: 2, size: 0, key: Some(10) },
        Node { path: "/t/s1/s2/s3", parent: "/t/s1/s2", kind: FileKind::Directory, ino: 3, size: 0, key: None },
    ];
    let (files, _, visited, _) = run_scan(
        config(Some(Order::Content), false, Some(FileTypeMatcher::Regular)),
        vec!["/t"],
        &tree,
    );
    assert_eq!(files, 0);
    let mut v = visited.clone();
    v.sort();
    assert_eq!(v, vec!["/t", "/t/s1", "/t/s1/s2", "/t/s1/s2/s3"]);
}

#[test]
fn directory_filter_counts_directories_and_still_descends() {
    let (files, _, visited, matched) = run_scan(
        config(None, false, Some(FileTypeMatcher::Dir)),
        vec!["/root"],
        &small_tree(),
    );
    assert_eq!(files, 1);
    assert_eq!(matched, vec!["/root/sub".to_string()]);
    assert_eq!(visited.len(), 2);
}

#[test]
fn symlink_filter_selects_only_symlinks() {
    let (files, _, _, matched) = run_scan(
        config(None, false, Some(FileTypeMatcher::Symlink)),
        vec!["/r"],
        &deep_tree(),
    );
    assert_eq!(files, 1);
    assert_eq!(matched, vec!["/r/d1/d3/s".to_string()]);
}

#[test]
fn multiple_roots_are_all_scanned() {
    let tree = vec![
        Node { path: "/a/f", parent: "/a", kind: FileKind::Regular, ino: 1, size: 5, key: None },
        Node { path: "/b/g", parent: "/b", kind: FileKind::Regular, ino: 2, size: 7, key: None },
    ];
    let (files, bytes, _, _) = run_scan(config(None, true, None), vec!["/a", "/b"], &tree);
    assert_eq!(files, 2);
    assert_eq!(bytes, 12);
}

#[test]
fn sum_lengths_adds_and_reports_overflow() {
    assert_eq!(sum_lengths(&vec![4, 6]), Some(10));
    assert_eq!(sum_lengths(&vec![]), Some(0));
    assert_eq!(sum_lengths(&vec![u64::MAX, 1]), None);
    assert_eq!(sum_lengths(&vec![u64::MAX]), Some(u64::MAX));
}

#[test]
fn size_request_implies_inode_order() {
    assert_eq!(config(None, true, None).effective_order(), Order::Inode);
    assert_eq!(config(None, false, None).effective_order(), Order::Dentries);
    assert_eq!(config(Some(Order::Content), true, None).effective_order(), Order::Content);
    assert_eq!(config(Some(Order::Dentries), true, None).effective_order(), Order::Dentries);
}

#[test]
fn type_codes_parse_and_match() {
    assert!(FileTypeMatcher::from('f').is(FileKind::Regular));
    assert!(!FileTypeMatcher::from('f').is(FileKind::Directory));
    assert!(FileTypeMatcher::from('d').is(FileKind::Directory));
    assert!(FileTypeMatcher::from('l').is(FileKind::Symlink));
    assert!(FileTypeMatcher::from('b').is(FileKind::Block));
    assert!(FileTypeMatcher::from('c').is(FileKind::Char));
    assert!(FileTypeMatcher::from('p').is(FileKind::Pipe));
    assert!(FileTypeMatcher::from('s').is(FileKind::Socket));
}
