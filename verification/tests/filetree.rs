use status_tree::components::filetree::{
    FileTreeItemKind, FileTreeItems, PathCollapsed, StatusItem, StatusItemType,
};
use status_tree::strings::{chars_of, comes_before, lies_below, starts_with, with_separator};

fn records(items: &[&str]) -> Vec<StatusItem> {
    items
        .iter()
        .map(|a| StatusItem {
            path: String::from(*a),
            status: None,
        })
        .collect()
}

fn paths(tree: &FileTreeItems) -> Vec<String> {
    tree.items()
        .iter()
        .map(|e| e.info.full_path.clone())
        .collect()
}

fn is_dir(tree: &FileTreeItems, i: usize) -> bool {
    matches!(tree.items()[i].kind, FileTreeItemKind::Path(_))
}

#[test]
fn tree_of_nothing_is_empty() {
    let tree = FileTreeItems::new(&[], &Vec::new());
    assert_eq!(tree.len(), 0);
    assert!(tree.items().is_empty());
    assert_eq!(FileTreeItems::default().len(), 0);
}

#[test]
fn tree_of_a_single_file() {
    let tree = FileTreeItems::new(&records(&["file.txt"]), &Vec::new());
    assert_eq!(paths(&tree), vec!["file.txt"]);
    assert!(!is_dir(&tree, 0));
    assert!(tree.items()[0].info.visible);
}

#[test]
fn tree_holds_each_directory_once_and_is_sorted() {
    let tree = FileTreeItems::new(&records(&["b/c/d", "b/a", "a", "b/c/e"]), &Vec::new());
    assert_eq!(paths(&tree), vec!["a", "b", "b/a", "b/c", "b/c/d", "b/c/e"]);
    assert_eq!(
        (0..6).map(|i| is_dir(&tree, i)).collect::<Vec<_>>(),
        vec![false, true, false, true, false, false]
    );
    assert!(tree.items().iter().all(|e| e.info.visible));
}

#[test]
fn tree_sorts_by_code_point() {
    let tree = FileTreeItems::new(&records(&["a/c", "a-b", "B", "\u{e9}", "z"]), &Vec::new());
    assert_eq!(paths(&tree), vec!["B", "a", "a-b", "a/c", "z", "\u{e9}"]);
}

#[test]
fn tree_applies_collapsed_paths() {
    let collapsed = vec![String::from("a/b"), String::from("x")];
    let tree = FileTreeItems::new(&records(&["a/b/c", "x"]), &collapsed);
    assert_eq!(paths(&tree), vec!["a", "a/b", "a/b/c", "x"]);
    assert!(matches!(
        tree.items()[0].kind,
        FileTreeItemKind::Path(PathCollapsed(false))
    ));
    assert!(matches!(
        tree.items()[1].kind,
        FileTreeItemKind::Path(PathCollapsed(true))
    ));
    assert!(tree.is_collapsed_at(1));
    assert!(!tree.is_collapsed_at(0));
    assert!(!tree.is_collapsed_at(3));
    assert!(tree.items().iter().all(|e| e.info.visible));
}

#[test]
fn tree_keeps_first_record_of_a_path() {
    let list = vec![
        StatusItem {
            path: String::from("a"),
            status: Some(StatusItemType::New),
        },
        StatusItem {
            path: String::from("a"),
            status: Some(StatusItemType::Deleted),
        },
    ];
    let tree = FileTreeItems::new(&list, &Vec::new());
    assert_eq!(tree.len(), 1);
    match &tree.items()[0].kind {
        FileTreeItemKind::File(item) => {
            assert_eq!(item.path, "a");
            assert_eq!(item.status, Some(StatusItemType::New));
        }
        FileTreeItemKind::Path(_) => panic!("a file was expected"),
    }
}

#[test]
fn tree_prefers_directory_over_file_of_same_path() {
    let tree = FileTreeItems::new(&records(&["a", "a/b"]), &Vec::new());
    assert_eq!(paths(&tree), vec!["a", "a/b"]);
    assert!(is_dir(&tree, 0));
    let tree = FileTreeItems::new(&records(&["a/b", "a"]), &Vec::new());
    assert_eq!(paths(&tree), vec!["a", "a/b"]);
    assert!(is_dir(&tree, 0));
}

#[test]
fn tree_has_no_directory_for_a_leading_separator() {
    let tree = FileTreeItems::new(&records(&["/a/b"]), &Vec::new());
    assert_eq!(paths(&tree), vec!["/a", "/a/b"]);
}

#[test]
fn find_and_position_of() {
    let tree = FileTreeItems::new(&records(&["a/b", "c", "e"]), &Vec::new());
    assert_eq!(paths(&tree), vec!["a", "a/b", "c", "e"]);
    assert_eq!(tree.find("a"), Some(0));
    assert_eq!(tree.find("a/b"), Some(1));
    assert_eq!(tree.find("e"), Some(3));
    assert_eq!(tree.find("d"), None);
    assert_eq!(tree.find(""), None);
    assert_eq!(tree.position_of(""), 0);
    assert_eq!(tree.position_of("b"), 2);
    assert_eq!(tree.position_of("c"), 2);
    assert_eq!(tree.position_of("d"), 3);
    assert_eq!(tree.position_of("f"), 4);
}

#[test]
fn find_parent_index_finds_nearest_directory() {
    let tree = FileTreeItems::new(&records(&["a/b/c", "a/d", "e"]), &Vec::new());
    assert_eq!(paths(&tree), vec!["a", "a/b", "a/b/c", "a/d", "e"]);
    assert_eq!(tree.find_parent_index("a/b/c", 2), 1);
    assert_eq!(tree.find_parent_index("a/b/c", 0), 0);
    assert_eq!(tree.find_parent_index("a/d", 3), 0);
    assert_eq!(tree.find_parent_index("a/b", 1), 0);
    assert_eq!(tree.find_parent_index("e", 4), 0);
    assert_eq!(tree.find_parent_index("a", 0), 0);
    assert_eq!(tree.find_parent_index("a2/x", 4), 0);
}

#[test]
fn set_visible_and_set_collapsed() {
    let mut tree = FileTreeItems::new(&records(&["a/b"]), &Vec::new());
    tree.set_visible(1, false);
    assert!(tree.items()[0].info.visible);
    assert!(!tree.items()[1].info.visible);
    tree.set_collapsed(0, true);
    assert!(tree.is_collapsed_at(0));
    tree.set_collapsed(1, true);
    assert!(!tree.is_collapsed_at(1));
    assert!(matches!(tree.items()[1].kind, FileTreeItemKind::File(_)));
    tree.set_collapsed(0, false);
    assert!(!tree.is_collapsed_at(0));
}

#[test]
fn starts_with_tests_prefix() {
    assert!(starts_with("a/b", "a/"));
    assert!(starts_with("a/b", ""));
    assert!(starts_with("a/b", "a/b"));
    assert!(!starts_with("a/b", "a/b/"));
    assert!(!starts_with("a2/b", "a/"));
    assert!(!starts_with("", "a"));
    assert!(starts_with("\u{e9}t\u{e9}/x", "\u{e9}t\u{e9}/"));
}

#[test]
fn lies_below_wants_a_separator() {
    assert!(lies_below("a/b", "a"));
    assert!(lies_below("a/b/c", "a"));
    assert!(lies_below("a/b/c", "a/b"));
    assert!(lies_below("a/", "a"));
    assert!(!lies_below("a", "a"));
    assert!(!lies_below("a2/b", "a"));
    assert!(!lies_below("b/a/c", "a"));
    assert!(lies_below("/x", ""));
    assert!(!lies_below("x", ""));
}

#[test]
fn comes_before_orders_by_code_point() {
    assert!(comes_before("a", "b"));
    assert!(!comes_before("b", "a"));
    assert!(!comes_before("a", "a"));
    assert!(comes_before("", "a"));
    assert!(!comes_before("a", ""));
    assert!(!comes_before("", ""));
    assert!(comes_before("a", "a/b"));
    assert!(comes_before("a-b", "a/b"));
    assert!(comes_before("a/b", "a2"));
    assert!(comes_before("Z", "a"));
    assert!(comes_before("z", "\u{e9}"));
    assert!(comes_before("\u{ffff}", "\u{10000}"));
    assert_eq!(comes_before("\u{ffff}", "\u{10000}"), "\u{ffff}" < "\u{10000}");
}

#[test]
fn with_separator_appends_it() {
    assert_eq!(with_separator("a/b"), "a/b/");
    assert_eq!(with_separator(""), "/");
}

#[test]
fn chars_of_lists_the_characters() {
    assert_eq!(chars_of("a/\u{e9}"), vec!['a', '/', '\u{e9}']);
    assert!(chars_of("").is_empty());
}

#[test]
fn string_tests_agree_with_the_standard_ones() {
    let words = [
        "", "a", "a/", "a/b", "a/b/c", "a-b", "a.txt", "a2", "a2/c", "b", "B", "/", "//",
        "/a", "ab", "\u{e9}", "\u{e9}/x", "\u{7ff}", "\u{800}", "\u{ffff}", "\u{10000}", " ",
        "a b", "z",
    ];
    for a in words.iter() {
        for b in words.iter() {
            assert_eq!(comes_before(a, b), a < b);
            assert_eq!(starts_with(a, b), a.starts_with(b));
            assert_eq!(lies_below(a, b), a.starts_with(&format!("{}/", b)));
        }
        assert_eq!(with_separator(a), format!("{}/", a));
        assert_eq!(chars_of(a), a.chars().collect::<Vec<_>>());
    }
}

#[test]
fn tree_is_sorted_and_complete_for_mixed_lists() {
    let list = records(&[
        "src/main.rs",
        "src-old/x",
        "src/a/b/c.rs",
        "README.md",
        "src/a.rs",
        "src/a/b.rs",
        "src/main.rs",
        ".gitignore",
    ]);
    let tree = FileTreeItems::new(&list, &vec![String::from("src/a")]);
    let got = paths(&tree);
    let mut want = vec![
        ".gitignore",
        "README.md",
        "src",
        "src-old",
        "src-old/x",
        "src/a",
        "src/a.rs",
        "src/a/b",
        "src/a/b.rs",
        "src/a/b/c.rs",
        "src/main.rs",
    ];
    want.sort();
    assert_eq!(got, want);
    assert!(tree.is_collapsed_at(5));
    for i in 0..tree.len() {
        assert_eq!(tree.find(&got[i]), Some(i));
        assert_eq!(tree.is_collapsed_at(i), i == 5);
    }
}
