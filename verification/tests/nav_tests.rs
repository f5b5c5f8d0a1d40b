use hosttree::builder::build;
use hosttree::flatten::flatten;
use hosttree::model::{Group, Kind, TreeNode};
use hosttree::nav::NavState;

fn group(path: &str, hosts: &[&str], subgroups: Vec<Group>) -> Group {
    Group {
        path: path.to_string(),
        hosts: hosts.iter().map(|h| h.to_string()).collect(),
        subgroups,
    }
}

/// Two folders with two hosts each, then a top-level host:
/// a[h1 h2] b[h3 h4] h5
fn sample_forest() -> Vec<TreeNode> {
    let forest = vec![group(
        "/",
        &["h5"],
        vec![
            group("a", &["h1", "h2"], vec![]),
            group("b", &["h3", "h4"], vec![]),
        ],
    )];
    build(&forest).unwrap()
}

#[test]
fn flatten_with_nothing_open_is_the_top_level() {
    let tree = sample_forest();
    let rows = flatten(&tree, &Vec::new());
    assert_eq!(rows.len(), 3);
    assert_eq!(rows[0].label, "a");
    assert!(matches!(rows[0].kind, Kind::Folder));
    assert_eq!(rows[1].label, "b");
    assert!(matches!(rows[1].kind, Kind::Folder));
    assert_eq!(rows[2].label, "h5");
    assert!(matches!(rows[2].kind, Kind::Host));
    assert!(rows.iter().all(|r| r.depth == 0));
}

#[test]
fn flatten_shows_children_of_open_folders() {
    let tree = sample_forest();
    let rows = flatten(&tree, &Vec::new());
    let a_id = rows[0].path[0];
    let rows = flatten(&tree, &vec![a_id]);
    let labels: Vec<&str> = rows.iter().map(|r| r.label.as_str()).collect();
    assert_eq!(labels, ["a", "h1", "h2", "b", "h5"]);
    assert_eq!(rows[1].depth, 1);
    assert_eq!(rows[1].path.len(), 2);
}

#[test]
fn movement_resumes_at_zero_initially() {
    let tree = sample_forest();
    let mut nav = NavState::new();
    assert!(nav.move_down(&tree));
    let rows = flatten(&tree, &nav.open);
    assert_eq!(nav.selected, rows[0].path);
}

#[test]
fn move_down_then_up_restores_selection() {
    let tree = sample_forest();
    let mut nav = NavState::new();
    nav.move_down(&tree);
    nav.move_down(&tree);
    let before = nav.selected.clone();
    assert!(nav.move_down(&tree));
    assert!(nav.move_up(&tree));
    assert_eq!(nav.selected, before);
}

#[test]
fn movement_clamps_at_both_ends() {
    let tree = sample_forest();
    let mut nav = NavState::new();
    nav.move_down(&tree);
    assert!(!nav.move_up(&tree));
    let rows = flatten(&tree, &nav.open);
    assert_eq!(nav.selected, rows[0].path);
    for _ in 0..10 {
        nav.move_down(&tree);
    }
    assert_eq!(nav.selected, rows[rows.len() - 1].path);
    assert!(!nav.move_down(&tree));
}

#[test]
fn toggle_twice_restores_open_set() {
    let tree = sample_forest();
    let mut nav = NavState::new();
    nav.move_down(&tree);
    let before = nav.open.clone();
    assert!(nav.toggle_selected(&tree));
    assert!(nav.toggle_selected(&tree));
    let mut a = before.clone();
    let mut b = nav.open.clone();
    a.sort();
    b.sort();
    assert_eq!(a, b);
}

#[test]
fn toggle_on_a_host_is_a_noop() {
    let tree = sample_forest();
    let mut nav = NavState::new();
    nav.select_last(&tree, 10);
    assert!(!nav.toggle_selected(&tree));
    assert!(nav.open.is_empty());
}

#[test]
fn open_selected_opens_then_descends() {
    let tree = sample_forest();
    let mut nav = NavState::new();
    nav.move_down(&tree);
    assert!(nav.open_selected(&tree));
    assert_eq!(nav.open.len(), 1);
    assert!(nav.open_selected(&tree));
    let rows = flatten(&tree, &nav.open);
    assert_eq!(nav.selected, rows[1].path);
    assert_eq!(rows[1].label, "h1");
}

#[test]
fn close_selected_on_host_moves_to_parent() {
    let tree = sample_forest();
    let mut nav = NavState::new();
    nav.move_down(&tree);
    nav.open_selected(&tree);
    nav.open_selected(&tree);
    let child = nav.selected.clone();
    assert!(nav.close_selected(&tree));
    assert_eq!(nav.selected, child[..child.len() - 1].to_vec());
}

#[test]
fn close_selected_on_open_folder_closes_it() {
    let tree = sample_forest();
    let mut nav = NavState::new();
    nav.move_down(&tree);
    nav.toggle_selected(&tree);
    assert_eq!(nav.open.len(), 1);
    assert!(nav.close_selected(&tree));
    assert!(nav.open.is_empty());
}

#[test]
fn closing_an_ancestor_relocates_the_selection() {
    let tree = sample_forest();
    let mut nav = NavState::new();
    nav.move_down(&tree);
    nav.open_selected(&tree);
    nav.open_selected(&tree);
    let folder = vec![nav.selected[0]];
    assert_ne!(nav.selected, folder);
    assert!(nav.close_folder(&folder));
    // The selection now sits on the closed ancestor, not inside it.
    assert_eq!(nav.selected, folder);
    let rows = flatten(&tree, &nav.open);
    assert!(rows.iter().any(|r| r.path == nav.selected));
}

#[test]
fn unselect_then_movement_resumes_there() {
    let tree = sample_forest();
    let mut nav = NavState::new();
    nav.move_down(&tree);
    nav.move_down(&tree);
    let before = nav.selected.clone();
    assert!(nav.unselect(&tree));
    assert!(nav.selected.is_empty());
    assert_eq!(nav.last_index, 1);
    assert!(nav.move_down(&tree));
    assert_eq!(nav.selected, before);
}

#[test]
fn select_last_scrolls_the_row_into_view() {
    let tree = sample_forest();
    let mut nav = NavState::new();
    let closed = flatten(&tree, &Vec::new());
    nav.open.push(closed[0].path[0]);
    nav.open.push(closed[1].path[0]);
    let rows = flatten(&tree, &nav.open);
    let n = rows.len();
    assert_eq!(n, 7);
    let viewport = 2;
    assert!(nav.select_last(&tree, viewport));
    assert_eq!(nav.selected, rows[n - 1].path);
    assert!(nav.scroll <= n - 1 && n - 1 < nav.scroll + viewport);
    assert_eq!(nav.scroll, n - viewport);
}

#[test]
fn select_first_selects_the_top_row() {
    let tree = sample_forest();
    let mut nav = NavState::new();
    nav.select_last(&tree, 5);
    assert!(nav.select_first(&tree));
    let rows = flatten(&tree, &nav.open);
    assert_eq!(nav.selected, rows[0].path);
}

#[test]
fn scrolling_clamps_into_bounds() {
    let tree = sample_forest();
    let mut nav = NavState::new();
    // 3 visible rows, viewport of 2: the only offsets are 0 and 1.
    assert!(nav.scroll_down(&tree, 2, 100));
    assert_eq!(nav.scroll, 1);
    assert!(!nav.scroll_down(&tree, 2, 1));
    assert_eq!(nav.scroll, 1);
    assert!(nav.scroll_up(&tree, 2, 100));
    assert_eq!(nav.scroll, 0);
    assert!(!nav.scroll_up(&tree, 2, 1));
    // A viewport taller than the view pins the offset at 0.
    assert!(!nav.scroll_down(&tree, 10, 3));
    assert_eq!(nav.scroll, 0);
}

#[test]
fn operations_on_an_empty_view_are_noops() {
    let tree: Vec<TreeNode> = Vec::new();
    let mut nav = NavState::new();
    assert!(!nav.move_down(&tree));
    assert!(!nav.move_up(&tree));
    assert!(!nav.toggle_selected(&tree));
    assert!(!nav.select_first(&tree));
    assert!(!nav.select_last(&tree, 5));
    assert!(!nav.unselect(&tree));
    assert!(nav.selected.is_empty());
}
