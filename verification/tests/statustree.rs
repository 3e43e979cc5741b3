use status_tree::components::filetree::{FileTreeItemKind, PathCollapsed, StatusItem};
use status_tree::components::statustree::{MoveSelection, StatusTree};

fn string_vec_to_status(items: &[&str]) -> Vec<StatusItem> {
    items
        .iter()
        .map(|a| StatusItem {
            path: String::from(*a),
            status: None,
        })
        .collect::<Vec<_>>()
}

fn get_visibles(tree: &StatusTree) -> Vec<bool> {
    tree.tree
        .items()
        .iter()
        .map(|e| e.info.visible)
        .collect::<Vec<_>>()
}

fn get_paths(tree: &StatusTree) -> Vec<String> {
    tree.tree
        .items()
        .iter()
        .map(|e| e.info.full_path.clone())
        .collect::<Vec<_>>()
}

fn tree_of(items: &[&str]) -> StatusTree {
    let mut res = StatusTree::default();
    res.update(&string_vec_to_status(items));
    res
}

#[test]
fn test_selection() {
    let items = string_vec_to_status(&[
        "a/b", //
    ]);

    let mut res = StatusTree::default();
    res.update(&items);

    assert!(res.move_selection(MoveSelection::Down));

    assert_eq!(res.selection, Some(1));

    assert!(res.move_selection(MoveSelection::Left));

    assert_eq!(res.selection, Some(0));
}

#[test]
fn test_keep_selected_item() {
    let mut res = StatusTree::default();
    res.update(&string_vec_to_status(&["b"]));

    assert_eq!(res.selection, Some(0));

    res.update(&string_vec_to_status(&["a", "b"]));

    assert_eq!(res.selection, Some(1));
}

#[test]
fn test_keep_selected_index() {
    let mut res = StatusTree::default();
    res.update(&string_vec_to_status(&["a", "b"]));
    res.selection = Some(1);

    res.update(&string_vec_to_status(&["d", "c", "a"]));
    assert_eq!(res.selection, Some(1));
}

#[test]
fn test_keep_collapsed_states() {
    let mut res = StatusTree::default();
    res.update(&string_vec_to_status(&[
        "a/b", //
        "c",
    ]));

    res.collapse("a", 0);

    assert_eq!(
        res.all_collapsed().iter().collect::<Vec<_>>(),
        vec![&String::from("a")]
    );

    assert_eq!(
        get_visibles(&res),
        vec![
            true,  //
            false, //
            true,  //
        ]
    );

    res.update(&string_vec_to_status(&[
        "a/b", //
        "c",   //
        "d",
    ]));

    assert_eq!(
        res.all_collapsed().iter().collect::<Vec<_>>(),
        vec![&String::from("a")]
    );

    assert_eq!(
        get_visibles(&res),
        vec![
            true,  //
            false, //
            true,  //
            true
        ]
    );
}

#[test]
fn test_expand() {
    let items = string_vec_to_status(&[
        "a/b/c", //
        "a/d",   //
    ]);

    //0 a/
    //1   b/
    //2     c
    //3   d

    let mut res = StatusTree::default();
    res.update(&items);

    res.collapse(&String::from("a/b"), 1);

    let visibles = get_visibles(&res);

    assert_eq!(
        visibles,
        vec![
            true,  //
            true,  //
            false, //
            true,
        ]
    );

    res.expand(&String::from("a/b"), 1);

    let visibles = get_visibles(&res);

    assert_eq!(
        visibles,
        vec![
            true, //
            true, //
            true, //
            true,
        ]
    );
}

#[test]
fn test_expand_bug() {
    let items = string_vec_to_status(&[
        "a/b/c",  //
        "a/b2/d", //
    ]);

    //0 a/
    //1   b/
    //2     c
    //3   b2/
    //4     d

    let mut res = StatusTree::default();
    res.update(&items);

    res.collapse(&String::from("b"), 1);
    res.collapse(&String::from("a"), 0);

    assert_eq!(
        get_visibles(&res),
        vec![
            true,  //
            false, //
            false, //
            false, //
            false,
        ]
    );

    res.expand(&String::from("a"), 0);

    assert_eq!(
        get_visibles(&res),
        vec![
            true,  //
            true,  //
            false, //
            true,  //
            true,
        ]
    );
}

#[test]
fn test_collapse_too_much() {
    let items = string_vec_to_status(&[
        "a/b",  //
        "a2/c", //
    ]);

    //0 a/
    //1   b
    //2 a2/
    //3   c

    let mut res = StatusTree::default();
    res.update(&items);

    res.collapse(&String::from("a"), 0);

    let visibles = get_visibles(&res);

    assert_eq!(
        visibles,
        vec![
            true,  //
            false, //
            true,  //
            true,
        ]
    );
}

#[test]
fn test_expand_with_collapsed_sub_parts() {
    let items = string_vec_to_status(&[
        "a/b/c", //
        "a/d",   //
    ]);

    //0 a/
    //1   b/
    //2     c
    //3   d

    let mut res = StatusTree::default();
    res.update(&items);

    res.collapse(&String::from("a/b"), 1);

    let visibles = get_visibles(&res);

    assert_eq!(
        visibles,
        vec![
            true,  //
            true,  //
            false, //
            true,
        ]
    );

    res.collapse(&String::from("a"), 0);

    let visibles = get_visibles(&res);

    assert_eq!(
        visibles,
        vec![
            true,  //
            false, //
            false, //
            false,
        ]
    );

    res.expand(&String::from("a"), 0);

    let visibles = get_visibles(&res);

    assert_eq!(
        visibles,
        vec![
            true,  //
            true,  //
            false, //
            true,
        ]
    );
}

#[test]
fn test_selection_skips_collapsed() {
    let items = string_vec_to_status(&[
        "a/b/c", //
        "a/d",   //
    ]);

    //0 a/
    //1   b/
    //2     c
    //3   d

    let mut res = StatusTree::default();
    res.update(&items);
    res.collapse(&String::from("a/b"), 1);
    res.selection = Some(1);

    assert!(res.move_selection(MoveSelection::Down));

    assert_eq!(res.selection, Some(3));
}

#[test]
fn empty_tree_has_no_selection() {
    let mut res = StatusTree::default();
    assert!(res.is_empty());
    assert_eq!(res.selection, None);
    assert!(res.selected_item().is_none());
    assert!(!res.move_selection(MoveSelection::Up));
    assert!(!res.move_selection(MoveSelection::Down));
    assert!(!res.move_selection(MoveSelection::Left));
    assert!(!res.move_selection(MoveSelection::Right));

    res.update(&string_vec_to_status(&[]));
    assert!(res.is_empty());
    assert_eq!(res.selection, None);
}

#[test]
fn rebuild_selects_first_entry() {
    let res = tree_of(&["x/y", "b"]);
    assert!(!res.is_empty());
    assert_eq!(get_paths(&res), vec!["b", "x", "x/y"]);
    assert_eq!(res.selection, Some(0));
    assert_eq!(get_visibles(&res), vec![true, true, true]);
}

#[test]
fn rebuild_to_nothing_drops_selection() {
    let mut res = tree_of(&["a", "b"]);
    res.selection = Some(1);
    res.update(&string_vec_to_status(&[]));
    assert_eq!(res.selection, None);
    assert!(res.is_empty());
}

#[test]
fn rebuild_keeps_selected_path() {
    let mut res = tree_of(&["m/n", "z"]);
    res.selection = Some(1);
    res.update(&string_vec_to_status(&["a", "b", "c", "m/n", "z"]));
    assert_eq!(res.selection, Some(4));
    assert_eq!(res.selected_item().unwrap().info.full_path, "m/n");
}

#[test]
fn rebuild_falls_back_to_last_entry() {
    let mut res = tree_of(&["a", "b", "c", "d"]);
    res.selection = Some(3);
    res.update(&string_vec_to_status(&["x", "y"]));
    assert_eq!(res.selection, Some(1));
}

#[test]
fn rebuild_falls_back_to_old_index() {
    let mut res = tree_of(&["a", "b", "c", "d"]);
    res.selection = Some(2);
    res.update(&string_vec_to_status(&["w", "x", "y", "z"]));
    assert_eq!(res.selection, Some(2));
}

#[test]
fn selected_item_is_a_copy_of_the_entry() {
    let mut res = tree_of(&["a/b"]);
    let item = res.selected_item().unwrap();
    assert_eq!(item.info.full_path, "a");
    assert!(item.info.visible);
    assert!(matches!(
        item.kind,
        FileTreeItemKind::Path(PathCollapsed(false))
    ));
    res.selection = Some(1);
    let item = res.selected_item().unwrap();
    assert_eq!(item.info.full_path, "a/b");
    assert!(matches!(item.kind, FileTreeItemKind::File(_)));
}

#[test]
fn up_and_down_stop_at_the_ends() {
    let mut res = tree_of(&["a", "b", "c"]);
    assert!(!res.move_selection(MoveSelection::Up));
    assert_eq!(res.selection, Some(0));
    assert!(res.move_selection(MoveSelection::Down));
    assert!(res.move_selection(MoveSelection::Down));
    assert_eq!(res.selection, Some(2));
    assert!(!res.move_selection(MoveSelection::Down));
    assert_eq!(res.selection, Some(2));
    assert!(res.move_selection(MoveSelection::Up));
    assert_eq!(res.selection, Some(1));
}

#[test]
fn up_skips_hidden_entries() {
    let mut res = tree_of(&["a/b/c", "a/d"]);
    res.collapse("a/b", 1);
    res.selection = Some(3);
    assert!(res.move_selection(MoveSelection::Up));
    assert_eq!(res.selection, Some(1));
}

#[test]
fn down_is_a_no_op_where_all_below_is_hidden() {
    let mut res = tree_of(&["a/b", "a/c"]);
    res.collapse("a", 0);
    assert_eq!(get_visibles(&res), vec![true, false, false]);
    assert!(!res.move_selection(MoveSelection::Down));
    assert_eq!(res.selection, Some(0));
}

#[test]
fn up_is_a_no_op_where_all_above_is_hidden() {
    let mut res = tree_of(&["a/b", "c"]);
    res.tree.set_visible(0, false);
    res.tree.set_visible(1, false);
    res.selection = Some(2);
    assert!(!res.move_selection(MoveSelection::Up));
    assert_eq!(res.selection, Some(2));
}

#[test]
fn left_collapses_and_right_expands() {
    let mut res = tree_of(&["a/b", "a/c"]);
    assert!(res.move_selection(MoveSelection::Left));
    assert_eq!(res.selection, Some(0));
    assert_eq!(get_visibles(&res), vec![true, false, false]);
    assert_eq!(res.all_collapsed(), vec![String::from("a")]);

    assert!(res.move_selection(MoveSelection::Right));
    assert_eq!(res.selection, Some(0));
    assert_eq!(get_visibles(&res), vec![true, true, true]);
    assert!(res.all_collapsed().is_empty());

    assert!(!res.move_selection(MoveSelection::Right));
}

#[test]
fn right_does_nothing_on_a_file() {
    let mut res = tree_of(&["a/b"]);
    res.selection = Some(1);
    assert!(!res.move_selection(MoveSelection::Right));
    assert_eq!(res.selection, Some(1));
    assert_eq!(get_visibles(&res), vec![true, true]);
}

#[test]
fn left_goes_to_the_directory_above() {
    let mut res = tree_of(&["a/b/c", "a/d"]);
    res.selection = Some(2);
    assert!(res.move_selection(MoveSelection::Left));
    assert_eq!(res.selection, Some(1));

    res.selection = Some(3);
    assert!(res.move_selection(MoveSelection::Left));
    assert_eq!(res.selection, Some(0));
}

#[test]
fn left_on_a_collapsed_directory_goes_up() {
    let mut res = tree_of(&["a/b/c"]);
    res.collapse("a/b", 1);
    res.selection = Some(1);
    assert!(res.move_selection(MoveSelection::Left));
    assert_eq!(res.selection, Some(0));
    assert_eq!(get_visibles(&res), vec![true, true, false]);
}

#[test]
fn left_without_a_directory_above_goes_to_the_top() {
    let mut res = tree_of(&["a", "b", "c"]);
    res.selection = Some(2);
    assert!(res.move_selection(MoveSelection::Left));
    assert_eq!(res.selection, Some(0));
    assert!(!res.move_selection(MoveSelection::Left));
    assert_eq!(res.selection, Some(0));
}

#[test]
fn collapse_leaves_a_sibling_with_the_same_beginning() {
    let mut res = tree_of(&["D/x", "D/y/z", "D2/x", "e"]);
    assert_eq!(
        get_paths(&res),
        vec!["D", "D/x", "D/y", "D/y/z", "D2", "D2/x", "e"]
    );
    res.collapse("D", 0);
    assert_eq!(
        get_visibles(&res),
        vec![true, false, false, false, true, true, true]
    );
}

#[test]
fn collapse_keeps_the_selection() {
    let mut res = tree_of(&["a/b"]);
    res.selection = Some(1);
    res.collapse("a", 0);
    assert_eq!(res.selection, Some(1));
    assert_eq!(get_visibles(&res), vec![true, false]);
}

#[test]
fn collapse_ends_at_the_first_entry_outside() {
    let mut res = tree_of(&["a-b", "a/c"]);
    assert_eq!(get_paths(&res), vec!["a", "a-b", "a/c"]);
    res.collapse("a", 0);
    assert_eq!(get_visibles(&res), vec![true, true, true]);
    assert_eq!(res.all_collapsed(), vec![String::from("a")]);
}

#[test]
fn expand_after_collapse_keeps_nested_directory_hidden() {
    let mut res = tree_of(&["a/b/c", "a/b/d", "a/e", "f"]);
    res.collapse("a/b", 1);
    res.collapse("a", 0);
    assert_eq!(
        get_visibles(&res),
        vec![true, false, false, false, false, true]
    );
    res.expand("a", 0);
    assert_eq!(
        get_visibles(&res),
        vec![true, true, false, false, true, true]
    );
    assert_eq!(res.all_collapsed(), vec![String::from("a/b")]);
}

#[test]
fn update_visibility_without_defaults_stops_out_of_scope() {
    let mut res = tree_of(&["a/b", "c", "d/e"]);
    for i in 0..5 {
        res.tree.set_visible(i, false);
    }
    res.update_visibility(Some("a/"), 1, false);
    assert_eq!(get_visibles(&res), vec![false, true, false, false, false]);
}

#[test]
fn update_visibility_with_defaults_hides_out_of_scope() {
    let mut res = tree_of(&["a/b", "c", "d/e"]);
    res.update_visibility(Some("d/"), 0, true);
    assert_eq!(get_visibles(&res), vec![false, false, false, false, true]);
    res.update_visibility(None, 0, true);
    assert_eq!(get_visibles(&res), vec![true, true, true, true, true]);
}

#[test]
fn update_visibility_beyond_the_end_changes_nothing() {
    let mut res = tree_of(&["a/b"]);
    res.tree.set_visible(1, false);
    res.update_visibility(None, 2, true);
    assert_eq!(get_visibles(&res), vec![true, false]);
}

#[test]
fn is_visible_index_reads_the_flag() {
    let mut res = tree_of(&["a/b"]);
    res.collapse("a", 0);
    assert!(res.is_visible_index(0));
    assert!(!res.is_visible_index(1));
}

#[test]
fn rebuild_recomputes_visibility_of_nested_collapsed() {
    let mut res = tree_of(&["a/b/c", "a/d"]);
    res.collapse("a/b", 1);
    res.collapse("a", 0);
    res.update(&string_vec_to_status(&["a/b/c", "a/d", "z"]));
    assert_eq!(
        res.all_collapsed(),
        vec![String::from("a"), String::from("a/b")]
    );
    assert_eq!(get_visibles(&res), vec![true, false, false, false, true]);
}

#[test]
fn update_visibility_hides_what_a_collapsed_directory_covers() {
    let mut res = tree_of(&["x/a/b", "x/c"]);
    assert_eq!(get_paths(&res), vec!["x", "x/a", "x/a/b", "x/c"]);
    res.tree.set_collapsed(1, true);
    assert_eq!(get_visibles(&res), vec![true, true, true, true]);
    res.update_visibility(Some("x/"), 1, false);
    assert_eq!(get_visibles(&res), vec![true, true, false, true]);
}

#[test]
fn update_visibility_takes_no_marker_from_outside_the_scope() {
    let mut res = tree_of(&["a/b/c", "a/d"]);
    assert_eq!(get_paths(&res), vec!["a", "a/b", "a/b/c", "a/d"]);
    res.tree.set_collapsed(0, true);
    res.update_visibility(Some("a/b/"), 0, true);
    assert_eq!(get_visibles(&res), vec![false, false, true, false]);
}

#[test]
fn expand_hides_what_a_collapsed_directory_below_covers() {
    let mut res = tree_of(&["a/b/c", "a/d"]);
    res.tree.set_collapsed(1, true);
    assert_eq!(get_visibles(&res), vec![true, true, true, true]);
    res.expand("a", 0);
    assert_eq!(get_visibles(&res), vec![true, true, false, true]);
}

#[test]
fn all_collapsed_is_ascending() {
    let mut res = tree_of(&["b/c/d", "a/x", "b/e/f", "g"]);
    assert_eq!(
        get_paths(&res),
        vec!["a", "a/x", "b", "b/c", "b/c/d", "b/e", "b/e/f", "g"]
    );
    res.collapse("b/e", 5);
    res.collapse("a", 0);
    res.collapse("b/c", 3);
    let collapsed = res.all_collapsed();
    assert_eq!(collapsed, vec!["a", "b/c", "b/e"]);
    assert!(collapsed.windows(2).all(|w| w[0] < w[1]));
}

#[test]
fn collapse_and_expand_keep_the_tree_usable() {
    let mut res = tree_of(&["a/b", "c"]);
    res.collapse("a", 0);
    assert!(res.move_selection(MoveSelection::Down));
    assert_eq!(res.selection, Some(2));
    res.expand("a", 0);
    assert!(res.move_selection(MoveSelection::Up));
    assert_eq!(res.selection, Some(1));
    res.update_visibility(None, 0, true);
    assert!(res.move_selection(MoveSelection::Up));
    assert_eq!(res.selection, Some(0));
}
