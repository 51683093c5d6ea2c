use diskviz::aggregate::build_tree;
use diskviz::aggregate::group_files;
use diskviz::entry::count_dirs;
use diskviz::entry::sum_file_bytes;
use diskviz::entry::Entry;
use diskviz::entry::EntryKind;
use diskviz::location::ScanPath;
use diskviz::tree::sum_sizes;
use diskviz::tree::DirNode;

fn path(parts: &[&str]) -> ScanPath {
    ScanPath::new(parts.iter().map(|p| p.to_string()).collect())
}

fn leaf(parts: &[&str], size: u64) -> DirNode {
    DirNode::new(parts.last().unwrap().to_string(), path(parts), size)
}

fn fixture() -> Vec<Entry> {
    vec![
        Entry::directory(path(&["R"])),
        Entry::file(path(&["R", "a.txt"]), 10),
        Entry::directory(path(&["R", "B"])),
        Entry::file(path(&["R", "B", "b.txt"]), 20),
        Entry::directory(path(&["R", "B", "C"])),
        Entry::file(path(&["R", "B", "C", "c.txt"]), 30),
    ]
}

/// Every (path, size) pair that the tree holds, sorted.
fn recorded(tree: &DirNode) -> Vec<(Vec<String>, u64)> {
    let mut all = Vec::new();
    let mut pending = vec![tree];
    while let Some(node) = pending.pop() {
        all.push((node.path.parts.clone(), node.size));
        for child in &node.children {
            pending.push(child);
        }
    }
    all.sort();
    all
}

#[test]
fn nested_fixture_gives_truncated_tree() {
    let root = path(&["R"]);
    let tree = build_tree(&root, &fixture()).unwrap();
    assert_eq!(tree.name, "R");
    assert_eq!(tree.path, root);
    assert_eq!(tree.size, 60);
    assert_eq!(tree.children.len(), 2);
    assert_eq!(tree.children[0], leaf(&["R", "a.txt"], 10));
    let b = &tree.children[1];
    assert_eq!(b.name, "B");
    assert_eq!(b.path, path(&["R", "B"]));
    assert_eq!(b.size, 20);
    assert_eq!(b.children, vec![leaf(&["R", "B", "b.txt"], 20)]);
}

#[test]
fn totals_of_nested_fixture() {
    let entries = fixture();
    assert_eq!(count_dirs(&entries), 3);
    assert_eq!(sum_file_bytes(&entries), Some(60));
}

#[test]
fn empty_directory_gives_empty_tree() {
    let root = path(&["tmp", "empty"]);
    let entries = vec![Entry::directory(path(&["tmp", "empty"]))];
    let tree = build_tree(&root, &entries).unwrap();
    assert_eq!(tree, DirNode::new("empty".to_string(), root, 0));
    assert_eq!(count_dirs(&entries), 1);
    assert_eq!(sum_file_bytes(&entries), Some(0));
}

#[test]
fn missing_root_gives_empty_tree() {
    let root = path(&["no", "such", "place"]);
    let tree = build_tree(&root, &Vec::new()).unwrap();
    assert_eq!(tree.name, "place");
    assert_eq!(tree.size, 0);
    assert!(tree.children.is_empty());
    assert_eq!(count_dirs(&Vec::new()), 0);
}

#[test]
fn deep_file_counts_without_a_node() {
    let root = path(&["R"]);
    let mut entries = fixture();
    let before = build_tree(&root, &entries).unwrap();
    entries.insert(2, Entry::file(path(&["R", "B", "C", "D", "d.bin"]), 1000));
    let after = build_tree(&root, &entries).unwrap();
    assert_eq!(after.size, before.size + 1000);
    assert_eq!(after.children, before.children);
    assert_eq!(sum_file_bytes(&entries), Some(1060));
}

#[test]
fn unreadable_file_is_left_out() {
    let root = path(&["R"]);
    let mut entries = fixture();
    let before = build_tree(&root, &entries).unwrap();
    entries.insert(
        1,
        Entry { path: path(&["R", "locked.txt"]), kind: EntryKind::File, len: None },
    );
    entries.push(Entry { path: path(&["R", "B", "link"]), kind: EntryKind::Other, len: Some(7) });
    let after = build_tree(&root, &entries).unwrap();
    assert_eq!(after, before);
    assert_eq!(sum_file_bytes(&entries), Some(60));
    assert_eq!(count_dirs(&entries), 3);
}

#[test]
fn order_of_entries_does_not_change_sizes() {
    let root = path(&["R"]);
    let forward = vec![
        Entry::file(path(&["R", "x"]), 1),
        Entry::file(path(&["R", "B", "p"]), 2),
        Entry::file(path(&["R", "A", "q"]), 4),
        Entry::file(path(&["R", "B", "r"]), 8),
        Entry::file(path(&["R", "A", "deep", "s"]), 16),
        Entry::directory(path(&["R", "A"])),
    ];
    let backward = vec![
        Entry::directory(path(&["R", "A"])),
        Entry::file(path(&["R", "A", "deep", "s"]), 16),
        Entry::file(path(&["R", "B", "r"]), 8),
        Entry::file(path(&["R", "A", "q"]), 4),
        Entry::file(path(&["R", "B", "p"]), 2),
        Entry::file(path(&["R", "x"]), 1),
    ];
    let one = build_tree(&root, &forward).unwrap();
    let two = build_tree(&root, &backward).unwrap();
    assert_eq!(one.size, 31);
    assert_eq!(two.size, 31);
    assert_eq!(recorded(&one), recorded(&two));
    assert_eq!(sum_file_bytes(&forward), sum_file_bytes(&backward));
    assert_eq!(count_dirs(&forward), count_dirs(&backward));
    // The order of siblings follows the order of the entries.
    let names = |t: &DirNode| t.children.iter().map(|c| c.name.clone()).collect::<Vec<_>>();
    assert_eq!(names(&one), vec!["x", "B", "A"]);
    assert_eq!(names(&two), vec!["B", "A", "x"]);
    assert_eq!(one.children[1].size, 10);
    assert_eq!(one.children[2].size, 4);
}

#[test]
fn same_scan_twice_gives_same_tree() {
    let root = path(&["R"]);
    let entries = fixture();
    assert_eq!(build_tree(&root, &entries), build_tree(&root, &entries));
}

#[test]
fn directory_size_is_sum_of_its_files() {
    let root = path(&["R"]);
    let entries = vec![
        Entry::file(path(&["R", "B", "one"]), 5),
        Entry::file(path(&["R", "top"]), 100),
        Entry::file(path(&["R", "B", "two"]), 6),
        Entry::file(path(&["R", "B", "three"]), 7),
    ];
    let tree = build_tree(&root, &entries).unwrap();
    assert_eq!(tree.size, 118);
    assert_eq!(sum_sizes(&tree.children), Some(tree.size));
    let b = &tree.children[0];
    assert_eq!(b.name, "B");
    assert_eq!(b.size, 18);
    assert_eq!(b.children.len(), 3);
    assert_eq!(sum_sizes(&b.children), Some(b.size));
    assert_eq!(tree.children[1], leaf(&["R", "top"], 100));
}

#[test]
fn root_is_heavier_than_children_when_files_lie_deep() {
    let root = path(&["R"]);
    let tree = build_tree(&root, &fixture()).unwrap();
    assert_eq!(sum_sizes(&tree.children), Some(30));
    assert_eq!(tree.size, 60);
}

#[test]
fn scanning_a_file_path_counts_it_without_children() {
    let root = path(&["home", "notes.txt"]);
    let entries = vec![Entry::file(path(&["home", "notes.txt"]), 42)];
    let tree = build_tree(&root, &entries).unwrap();
    assert_eq!(tree.name, "notes.txt");
    assert_eq!(tree.size, 42);
    assert!(tree.children.is_empty());
}

#[test]
fn files_outside_the_root_count_without_a_node() {
    let root = path(&["R"]);
    let entries = vec![
        Entry::file(path(&["S", "elsewhere"]), 3),
        Entry::file(path(&["R"]), 4),
    ];
    let tree = build_tree(&root, &entries).unwrap();
    assert_eq!(tree.size, 7);
    assert!(tree.children.is_empty());
}

#[test]
fn file_without_parent_is_filed_under_the_root() {
    let root = path(&["R"]);
    let entries = vec![Entry::file(path(&[]), 9)];
    let tree = build_tree(&root, &entries).unwrap();
    assert_eq!(tree.size, 9);
    assert_eq!(tree.children, vec![DirNode::new(String::new(), path(&[]), 9)]);
}

#[test]
fn byte_total_beyond_64_bits_gives_no_tree() {
    let root = path(&["R"]);
    let entries = vec![
        Entry::file(path(&["R", "huge"]), u64::MAX),
        Entry::file(path(&["R", "one"]), 1),
    ];
    assert_eq!(sum_file_bytes(&entries), None);
    assert_eq!(build_tree(&root, &entries), None);
}

#[test]
fn byte_total_of_exactly_64_bits_fits() {
    let root = path(&["R"]);
    let entries = vec![
        Entry::file(path(&["R", "huge"]), u64::MAX - 1),
        Entry::file(path(&["R", "B", "C", "one"]), 1),
    ];
    assert_eq!(sum_file_bytes(&entries), Some(u64::MAX));
    let tree = build_tree(&root, &entries).unwrap();
    assert_eq!(tree.size, u64::MAX);
    assert_eq!(tree.children, vec![leaf(&["R", "huge"], u64::MAX - 1)]);
}

#[test]
fn parallel_sum_adds_many_lengths() {
    let entries: Vec<Entry> = (0..10_000u64)
        .map(|i| Entry::file(path(&["R", "d", "e", &format!("f{}", i)]), i))
        .collect();
    assert_eq!(sum_file_bytes(&entries), Some(49_995_000));
    let single = vec![Entry::file(path(&["R", "only"]), 77)];
    assert_eq!(sum_file_bytes(&single), Some(77));
}

#[test]
fn groups_follow_first_appearance() {
    let root = path(&["R"]);
    let entries = vec![
        Entry::file(path(&["R", "B", "p"]), 2),
        Entry::file(path(&["R", "x"]), 1),
        Entry::file(path(&["R", "B", "C", "deep"]), 64),
        Entry::file(path(&["R", "B", "r"]), 8),
        Entry::file(path(&["R", "y"]), 16),
    ];
    let groups = group_files(&root, &entries);
    assert_eq!(groups.len(), 2);
    assert_eq!(groups[0].dir, path(&["R", "B"]));
    assert_eq!(groups[0].files, vec![leaf(&["R", "B", "p"], 2), leaf(&["R", "B", "r"], 8)]);
    assert_eq!(groups[1].dir, root);
    assert_eq!(groups[1].files, vec![leaf(&["R", "x"], 1), leaf(&["R", "y"], 16)]);
}

#[test]
fn sum_of_sizes_reports_overflow() {
    let nodes = vec![leaf(&["a"], u64::MAX), leaf(&["b"], 1)];
    assert_eq!(sum_sizes(&nodes), None);
    assert_eq!(sum_sizes(&vec![leaf(&["a"], u64::MAX)]), Some(u64::MAX));
    assert_eq!(sum_sizes(&Vec::new()), Some(0));
}

#[test]
fn found_entries_are_classified() {
    let dir = Entry::found(path(&["R"]), true, false, None);
    assert_eq!(dir.kind, EntryKind::Directory);
    let file = Entry::found(path(&["R", "f"]), false, true, Some(3));
    assert_eq!(file, Entry::file(path(&["R", "f"]), 3));
    assert!(file.is_sized_file());
    let link = Entry::found(path(&["R", "l"]), false, false, Some(3));
    assert_eq!(link.kind, EntryKind::Other);
    assert!(!link.is_sized_file());
    let unread = Entry::found(path(&["R", "u"]), false, true, None);
    assert_eq!(unread.kind, EntryKind::File);
    assert!(!unread.is_sized_file());
    assert!(!dir.is_sized_file());
}

#[test]
fn default_node_is_empty() {
    let node = DirNode::default();
    assert_eq!(node.name, "");
    assert_eq!(node.path, path(&[]));
    assert_eq!(node.size, 0);
    assert!(node.children.is_empty());
}

#[test]
fn totals_match_across_pool_sizes() {
    let root = path(&["R"]);
    let entries: Vec<Entry> = (0..5_000u64)
        .map(|i| {
            let name = format!("f{}", i);
            match i % 3 {
                0 => Entry::file(path(&["R", &name]), i * 7),
                1 => Entry::file(path(&["R", "sub", &name]), i * 11),
                _ => Entry::file(path(&["R", "sub", "deeper", &name]), i * 13),
            }
        })
        .collect();
    let expected: u64 = (0..5_000u64)
        .map(|i| match i % 3 {
            0 => i * 7,
            1 => i * 11,
            _ => i * 13,
        })
        .sum();
    let narrow = rayon::ThreadPoolBuilder::new().num_threads(1).build().unwrap();
    let wide = rayon::ThreadPoolBuilder::new().num_threads(4).build().unwrap();
    let one = narrow.install(|| build_tree(&root, &entries)).unwrap();
    let four = wide.install(|| build_tree(&root, &entries)).unwrap();
    assert_eq!(one.size, expected);
    assert_eq!(four.size, expected);
    assert_eq!(one, four);
    assert_eq!(narrow.install(|| sum_file_bytes(&entries)), Some(expected));
    assert_eq!(wide.install(|| sum_file_bytes(&entries)), Some(expected));
}

#[test]
fn nodes_are_named_by_their_paths() {
    let root = path(&["R"]);
    let tree = build_tree(&root, &fixture()).unwrap();
    let mut pending = vec![&tree];
    let mut seen = 0;
    while let Some(node) = pending.pop() {
        assert_eq!(node.name, node.path.name());
        seen += 1;
        for child in &node.children {
            pending.push(child);
        }
    }
    assert_eq!(seen, 4);
}

#[test]
fn tree_is_two_levels_deep_and_siblings_differ() {
    let root = path(&["R"]);
    let entries = vec![
        Entry::file(path(&["R", "B", "one"]), 5),
        Entry::file(path(&["R", "top"]), 100),
        Entry::file(path(&["R", "B", "two"]), 6),
        Entry::file(path(&["R", "A", "one"]), 7),
        Entry::file(path(&["R", "A", "x", "y", "z"]), 8),
    ];
    let tree = build_tree(&root, &entries).unwrap();
    assert_eq!(tree.children.len(), 3);
    for (i, child) in tree.children.iter().enumerate() {
        for other in &tree.children[i + 1..] {
            assert_ne!(child.path, other.path);
        }
        for (k, grandchild) in child.children.iter().enumerate() {
            assert!(grandchild.children.is_empty());
            for other in &child.children[k + 1..] {
                assert_ne!(grandchild.path, other.path);
            }
        }
    }
}
