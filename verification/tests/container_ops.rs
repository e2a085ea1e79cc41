use tiri_layout::layout::container::{
    layout_label, ContainerData, ContainerTree, DetachedContainer, DetachedNode, Direction, Layout,
    LayoutTreeNode, NodeData, RootPolicy, TreeCommandTarget,
};

fn render(node: &LayoutTreeNode, depth: usize, out: &mut String) {
    let indent = "  ".repeat(depth);
    match (node.layout, node.window_id) {
        (Some(layout), _) => {
            out.push_str(&format!("{indent}{}\n", layout_label(layout)));
            for child in &node.children {
                render(child, depth + 1, out);
            }
        }
        (None, Some(id)) => {
            let focused = if node.focused { " *" } else { "" };
            out.push_str(&format!("{indent}Window {id}{focused}\n"));
        }
        (None, None) => out.push_str(&format!("{indent}(missing)\n")),
    }
}

fn tree_text(tree: &ContainerTree) -> String {
    let mut out = String::new();
    match tree.layout_tree() {
        Some(root) => render(&root, 0, &mut out),
        None => out.push_str("(empty)\n"),
    }
    out
}

fn tree_of(ids: &[u64]) -> ContainerTree {
    let mut tree = ContainerTree::new();
    for &id in ids {
        tree.insert_window(id);
    }
    tree
}

#[test]
fn new_tree_is_empty() {
    let tree = ContainerTree::new();
    assert!(tree.is_empty());
    assert_eq!(tree.window_count(), 0);
    assert!(tree.all_windows().is_empty());
    assert_eq!(tree.focused_window(), None);
    assert!(tree.focus_path().is_empty());
    assert_eq!(tree_text(&tree), "(empty)\n");
}

#[test]
fn first_window_becomes_root_leaf() {
    let tree = tree_of(&[7]);
    assert_eq!(tree_text(&tree), "Window 7 *\n");
    assert_eq!(tree.focused_window(), Some(7));
    assert_eq!(tree.root_children_len(), 1);
    assert!(tree.root_container().is_none());
}

#[test]
fn second_window_wraps_root_in_horizontal_split() {
    let tree = tree_of(&[1, 2]);
    assert_eq!(tree_text(&tree), "SplitH\n  Window 1\n  Window 2 *\n");
    assert_eq!(tree.focus_path(), &[1]);
    assert_eq!(tree.window_count(), 2);
    assert_eq!(tree.all_windows(), vec![1, 2]);
}

#[test]
fn insert_goes_right_after_focused_window() {
    let mut tree = tree_of(&[1, 2, 3]);
    assert!(tree.focus_window_by_id(1));
    tree.insert_window(4);
    assert_eq!(tree.all_windows(), vec![1, 4, 2, 3]);
    assert_eq!(tree.focused_window(), Some(4));
}

#[test]
fn find_window_returns_path_of_first_holder() {
    let tree = tree_of(&[1, 2, 3]);
    assert_eq!(tree.find_window(2), Some(vec![1]));
    assert_eq!(tree.find_window(9), None);
}

#[test]
fn remove_window_returns_id_only_when_present() {
    let mut tree = tree_of(&[1, 2, 3]);
    assert_eq!(tree.remove_window(9), None);
    assert_eq!(tree.all_windows(), vec![1, 2, 3]);
    assert_eq!(tree.remove_window(2), Some(2));
    assert_eq!(tree.all_windows(), vec![1, 3]);
}

#[test]
fn remove_window_drops_only_first_duplicate() {
    let mut tree = tree_of(&[5, 6, 5]);
    assert_eq!(tree.all_windows(), vec![5, 6, 5]);
    assert_eq!(tree.remove_window(5), Some(5));
    assert_eq!(tree.all_windows(), vec![6, 5]);
}

#[test]
fn removing_last_window_empties_tree() {
    let mut tree = tree_of(&[1]);
    assert_eq!(tree.remove_window(1), Some(1));
    assert!(tree.is_empty());
    assert!(tree.focus_path().is_empty());
}

#[test]
fn removing_down_to_one_window_unwraps_the_root() {
    let mut tree = tree_of(&[1, 2]);
    assert_eq!(tree.remove_window(2), Some(2));
    assert_eq!(tree_text(&tree), "Window 1 *\n");
}

#[test]
fn removal_keeps_a_nested_split_of_the_same_layout() {
    let mut tree = tree_of(&[1, 2]);
    assert!(tree.split_focused(Layout::SplitV));
    tree.insert_window(3);
    tree.insert_window(4);
    assert!(tree.set_focused_layout(Layout::SplitH));
    assert_eq!(tree_text(&tree), "SplitH\n  Window 1\n  SplitH\n    Window 2\n    Window 3\n    Window 4 *\n");
    assert_eq!(tree.remove_window(2), Some(2));
    assert_eq!(tree_text(&tree), "SplitH\n  Window 1\n  SplitH\n    Window 3\n    Window 4 *\n");
}

#[test]
fn removal_keeps_single_child_container_of_other_layout() {
    let mut tree = tree_of(&[1, 2]);
    assert!(tree.split_focused(Layout::SplitV));
    tree.insert_window(3);
    assert_eq!(tree.remove_window(2), Some(2));
    assert_eq!(tree_text(&tree), "SplitH\n  Window 1\n  SplitV\n    Window 3 *\n");
}

#[test]
fn insert_then_remove_gives_back_windows() {
    let mut tree = tree_of(&[1, 2, 3]);
    assert!(tree.split_focused(Layout::Tabbed));
    let before = tree.all_windows();
    tree.insert_window(42);
    assert_eq!(tree.remove_window(42), Some(42));
    assert_eq!(tree.all_windows(), before);
}

#[test]
fn focus_window_by_id_focuses_that_window() {
    let mut tree = tree_of(&[1, 2, 3]);
    assert!(tree.focus_window_by_id(1));
    assert_eq!(tree.focused_window(), Some(1));
    assert!(!tree.focus_window_by_id(8));
    assert_eq!(tree.focused_window(), Some(1));
}

#[test]
fn focus_moves_between_siblings() {
    let mut tree = tree_of(&[1, 2, 3]);
    assert!(tree.focus_in_direction(Direction::Left));
    assert_eq!(tree.focused_window(), Some(2));
    assert!(tree.focus_in_direction(Direction::Left));
    assert_eq!(tree.focused_window(), Some(1));
    assert!(!tree.focus_in_direction(Direction::Left));
    assert!(!tree.focus_in_direction(Direction::Up));
    assert!(tree.focus_in_direction(Direction::Right));
    assert_eq!(tree.focused_window(), Some(2));
}

#[test]
fn focus_in_direction_on_empty_tree_fails() {
    let mut tree = ContainerTree::new();
    assert!(!tree.focus_in_direction(Direction::Right));
}

#[test]
fn focus_parent_and_child_roundtrip() {
    let mut tree = tree_of(&[1, 2]);
    assert!(tree.split_focused(Layout::SplitV));
    tree.insert_window(3);
    let before = tree.focus_path().to_vec();
    assert!(tree.focus_parent());
    assert!(tree.focus_child());
    assert_eq!(tree.focus_path(), &before[..]);
    assert!(!tree.focus_child());
}

#[test]
fn focus_parent_on_root_leaf_fails() {
    let mut tree = tree_of(&[1]);
    assert!(!tree.focus_parent());
}

#[test]
fn move_swaps_with_sibling() {
    let mut tree = tree_of(&[1, 2, 3]);
    assert!(tree.move_in_direction(Direction::Left));
    assert_eq!(tree.all_windows(), vec![1, 3, 2]);
    assert_eq!(tree.focused_window(), Some(3));
}

#[test]
fn move_into_container_of_other_orientation() {
    let mut tree = tree_of(&[1, 2]);
    assert!(tree.split_focused(Layout::SplitV));
    tree.insert_window(3);
    assert!(tree.focus_window_by_id(1));
    assert!(tree.move_in_direction(Direction::Right));
    assert_eq!(tree_text(&tree), "SplitH\n  SplitV\n    Window 2\n    Window 1 *\n    Window 3\n");
}

#[test]
fn move_out_of_container_into_grandparent() {
    let mut tree = tree_of(&[1, 2]);
    assert!(tree.split_focused(Layout::SplitV));
    tree.insert_window(3);
    assert!(tree.move_in_direction(Direction::Right));
    assert_eq!(tree_text(&tree), "SplitH\n  Window 1\n  SplitV\n    Window 2\n  Window 3 *\n");
}

#[test]
fn move_on_single_window_fails() {
    let mut tree = tree_of(&[1]);
    assert!(!tree.move_in_direction(Direction::Left));
    assert_eq!(tree_text(&tree), "Window 1 *\n");
}

#[test]
fn split_root_leaf_wraps_it() {
    let mut tree = tree_of(&[1]);
    assert!(tree.split_focused(Layout::Tabbed));
    assert_eq!(tree_text(&tree), "Tabbed\n  Window 1 *\n");
    assert_eq!(tree.focused_layout(), Some(Layout::Tabbed));
}

#[test]
fn split_with_root_layout_wraps_the_window() {
    let mut tree = tree_of(&[1, 2]);
    assert!(tree.split_focused(Layout::SplitH));
    assert_eq!(tree_text(&tree), "SplitH\n  Window 1\n  SplitH\n    Window 2 *\n");
    // Inside a split made by a split, splitting again with its layout changes nothing.
    tree.insert_window(3);
    assert!(tree.split_focused(Layout::SplitH));
    assert_eq!(tree_text(&tree), "SplitH\n  Window 1\n  SplitH\n    Window 2\n    Window 3 *\n");
}

#[test]
fn split_of_a_lone_window_turns_its_split() {
    let mut tree = tree_of(&[1]);
    assert!(tree.split_focused(Layout::SplitV));
    assert!(tree.split_focused(Layout::SplitH));
    assert_eq!(tree_text(&tree), "SplitH\n  Window 1 *\n");
}

#[test]
fn split_on_empty_tree_shapes_the_next_window() {
    let mut tree = ContainerTree::new();
    assert!(tree.split_focused(Layout::Stacked));
    assert!(tree.is_empty());
    tree.insert_window(1);
    assert_eq!(tree_text(&tree), "Stacked\n  Window 1 *\n");
    tree.insert_window(2);
    assert_eq!(tree.remove_window(2), Some(2));
    assert_eq!(tree_text(&tree), "Window 1 *\n");
    assert_eq!(tree.remove_window(1), Some(1));
    tree.insert_window(3);
    assert_eq!(tree_text(&tree), "Window 3 *\n");
}

#[test]
fn set_focused_layout_changes_parent_layout() {
    let mut tree = tree_of(&[1, 2]);
    assert!(tree.set_focused_layout(Layout::Stacked));
    assert_eq!(tree_text(&tree), "Stacked\n  Window 1\n  Window 2 *\n");
    assert_eq!(tree.focused_layout(), Some(Layout::Stacked));
    let mut empty = ContainerTree::new();
    assert!(!empty.set_focused_layout(Layout::Tabbed));
    assert_eq!(empty.focused_layout(), None);
}

#[test]
fn container_info_reports_layout_and_children() {
    let mut tree = tree_of(&[1, 2]);
    assert!(tree.split_focused(Layout::SplitV));
    assert_eq!(tree.container_info(&[]), Some((Layout::SplitH, 2)));
    assert_eq!(tree.container_info(&[1]), Some((Layout::SplitV, 1)));
    assert_eq!(tree.container_info(&[0]), None);
    assert_eq!(tree.container_info(&[5]), None);
}

#[test]
fn find_parent_with_layout_walks_up() {
    let mut tree = tree_of(&[1, 2]);
    assert!(tree.split_focused(Layout::SplitV));
    tree.insert_window(3);
    assert_eq!(tree.find_parent_with_layout(vec![1, 1], Layout::SplitV), Some((vec![1], 1)));
    assert_eq!(tree.find_parent_with_layout(vec![1, 1], Layout::SplitH), Some((vec![], 1)));
    assert_eq!(tree.find_parent_with_layout(vec![1, 1], Layout::Tabbed), None);
    assert_eq!(tree.find_parent_with_layout(vec![4, 0], Layout::SplitH), None);
}

#[test]
fn root_children_and_focused_root_index() {
    let tree = ContainerTree::new();
    assert_eq!(tree.root_children_len(), 0);
    assert_eq!(tree.focused_root_index(), None);
    let tree = tree_of(&[1, 2, 3]);
    assert_eq!(tree.root_children_len(), 3);
    assert_eq!(tree.focused_root_index(), Some(2));
    let root = tree.root_container().unwrap();
    assert_eq!(root.layout(), Layout::SplitH);
    assert_eq!(root.child_count(), 3);
    assert_eq!(root.focused_idx(), 2);
}

#[test]
fn focus_root_child_descends() {
    let mut tree = tree_of(&[1, 2, 3]);
    assert!(tree.focus_root_child(0));
    assert_eq!(tree.focused_window(), Some(1));
    assert!(!tree.focus_root_child(3));
    let mut single = tree_of(&[1]);
    assert!(single.focus_root_child(0));
    assert!(!single.focus_root_child(1));
}

#[test]
fn move_root_child_reorders_and_follows_focus() {
    let mut tree = tree_of(&[1, 2, 3]);
    assert!(tree.focus_window_by_id(1));
    assert!(tree.move_root_child(0, 2));
    assert_eq!(tree.all_windows(), vec![2, 3, 1]);
    assert_eq!(tree.focused_window(), Some(1));
    assert!(!tree.move_root_child(0, 3));
}

#[test]
fn take_root_child_subtree_detaches_column() {
    let mut tree = tree_of(&[1, 2, 3]);
    let taken = tree.take_root_child_subtree(1).unwrap();
    assert_eq!(taken.tiles(), vec![2]);
    assert!(taken.contains_window(2));
    assert!(!taken.contains_window(1));
    assert_eq!(tree.all_windows(), vec![1, 3]);
    assert_eq!(tree.focused_window(), Some(3));
    assert!(tree.take_root_child_subtree(5).is_none());
}

#[test]
fn take_root_child_tiles_of_root_leaf() {
    let mut tree = tree_of(&[4]);
    assert_eq!(tree.take_root_child_tiles(0), Some(vec![4]));
    assert!(tree.is_empty());
}

#[test]
fn insert_subtree_at_root_keeps_structure() {
    let mut source = tree_of(&[1, 2]);
    assert!(source.split_focused(Layout::Tabbed));
    source.insert_window(3);
    let taken = source.take_root_child_subtree(1).unwrap();
    assert_eq!(taken.tiles(), vec![2, 3]);
    let mut target = tree_of(&[10]);
    target.insert_subtree_at_root(0, taken, true);
    assert_eq!(target.all_windows(), vec![2, 3, 10]);
    assert_eq!(target.container_info(&[0]), Some((Layout::Tabbed, 2)));
}

#[test]
fn detached_nodes_report_their_windows() {
    let node = DetachedNode::Container(DetachedContainer::new(
        Layout::SplitV,
        vec![DetachedNode::Leaf(3), DetachedNode::Leaf(4)],
    ));
    assert_eq!(node.tiles(), vec![3, 4]);
    assert!(node.contains_window(4));
    assert_eq!(node.into_tiles(), vec![3, 4]);
}

#[test]
fn insert_leaf_at_and_append() {
    let mut tree = tree_of(&[1, 2]);
    tree.insert_leaf_at(0, 9, false);
    assert_eq!(tree.all_windows(), vec![9, 1, 2]);
    assert_eq!(tree.focused_window(), Some(2));
    tree.append_leaf(8, true);
    assert_eq!(tree.all_windows(), vec![9, 1, 2, 8]);
    assert_eq!(tree.focused_window(), Some(8));
    tree.insert_leaf_at(100, 7, false);
    assert_eq!(tree.all_windows(), vec![9, 1, 2, 8, 7]);
}

#[test]
fn insert_tiles_at_root_builds_column() {
    let mut tree = tree_of(&[1]);
    tree.insert_tiles_at_root(1, vec![5, 6], true);
    assert_eq!(tree_text(&tree), "SplitH\n  Window 1\n  SplitV\n    Window 5 *\n    Window 6\n");
    tree.insert_tiles_at_root(0, vec![], true);
    assert_eq!(tree.window_count(), 3);
    tree.insert_tiles_at_root(0, vec![7], false);
    assert_eq!(tree.all_windows(), vec![7, 1, 5, 6]);
}

#[test]
fn inserted_tiles_stay_together_in_order() {
    let mut tree = tree_of(&[1, 2, 3]);
    tree.insert_tiles_at_root(1, vec![9, 8, 7], false);
    assert_eq!(tree.all_windows(), vec![1, 9, 8, 7, 2, 3]);
    assert_eq!(tree.focused_window(), Some(3));
    tree.insert_tiles_at_root(99, vec![4, 5], false);
    assert_eq!(tree.all_windows(), vec![1, 9, 8, 7, 2, 3, 4, 5]);
}

#[test]
fn insert_leaf_after_lands_after_window() {
    let mut tree = tree_of(&[1, 2, 3]);
    assert!(tree.insert_leaf_after(1, 9, false));
    assert_eq!(tree.all_windows(), vec![1, 9, 2, 3]);
    assert_eq!(tree.focused_window(), Some(3));
    assert!(tree.insert_leaf_after(77, 10, true));
    assert_eq!(tree.all_windows(), vec![1, 9, 2, 3, 10]);
    assert_eq!(tree.focused_window(), Some(10));
}

#[test]
fn insert_leaf_in_column_wraps_leaf_column() {
    let mut tree = tree_of(&[1, 2]);
    assert!(tree.insert_leaf_in_column(0, None, 5, true));
    assert_eq!(tree_text(&tree), "SplitH\n  SplitV\n    Window 1\n    Window 5 *\n  Window 2\n");
    assert!(!tree.insert_leaf_in_column(7, None, 6, true));
    assert!(tree.insert_leaf_in_column(0, Some(0), 6, false));
    assert_eq!(tree.all_windows(), vec![6, 1, 5, 2]);
}

#[test]
fn leaf_paths_and_column_focus() {
    let mut tree = tree_of(&[1, 2]);
    assert!(tree.split_focused(Layout::SplitV));
    tree.insert_window(3);
    assert_eq!(tree.leaf_paths_under(&[1]), vec![vec![1, 0], vec![1, 1]]);
    assert_eq!(tree.leaf_paths_under(&[9]), Vec::<Vec<usize>>::new());
    assert!(tree.focus_top_in_current_column());
    assert_eq!(tree.focused_window(), Some(2));
    assert!(tree.focus_bottom_in_current_column());
    assert_eq!(tree.focused_window(), Some(3));
    assert!(tree.focus_leaf_in_root_child(0, 1));
    assert_eq!(tree.focused_window(), Some(1));
    assert!(!tree.focus_leaf_in_root_child(0, 0));
    assert!(!tree.focus_leaf_in_root_child(0, 2));
}

#[test]
fn leaf_visibility_shows_only_focused_tab() {
    let mut tree = tree_of(&[1, 2, 3]);
    assert!(tree.set_focused_layout(Layout::Tabbed));
    let vis: Vec<(Vec<usize>, bool)> = tree.leaf_visibility().into_iter().map(|v| (v.path, v.visible)).collect();
    assert_eq!(vis, vec![(vec![0], false), (vec![1], false), (vec![2], true)]);
    let groups = tree.tab_bar_groups();
    assert_eq!(groups.len(), 1);
    assert_eq!(groups[0].path, Vec::<usize>::new());
    assert_eq!(groups[0].layout, Layout::Tabbed);
    assert_eq!(groups[0].focused_idx, 2);
    assert_eq!(groups[0].tab_count, 3);
}

#[test]
fn split_trees_show_every_leaf_and_no_tab_bar() {
    let tree = tree_of(&[1, 2]);
    assert!(tree.leaf_visibility().iter().all(|v| v.visible));
    assert!(tree.tab_bar_groups().is_empty());
}

#[test]
fn focused_window_under_follows_focus() {
    let mut tree = tree_of(&[1, 2]);
    assert!(tree.split_focused(Layout::Stacked));
    tree.insert_window(3);
    assert_eq!(tree.focused_window_under(&[1]), Some(3));
    assert_eq!(tree.focused_window_under(&[]), Some(3));
    assert_eq!(tree.focused_window_under(&[0]), Some(1));
    assert_eq!(tree.focused_window_under(&[4]), None);
}

#[test]
fn command_target_depends_on_focused_node() {
    let mut tree = tree_of(&[1, 2]);
    assert_eq!(tree.command_target(RootPolicy::ImplicitWorkspace), TreeCommandTarget::Leaf(vec![1]));
    assert!(tree.focus_parent());
    assert!(tree.focus_path().len() == 1);
    let empty = ContainerTree::new();
    assert_eq!(empty.command_target(RootPolicy::MaterialContainer), TreeCommandTarget::Workspace);
}

#[test]
fn layout_tree_marks_focused_leaf() {
    let tree = tree_of(&[1, 2]);
    let root = tree.layout_tree().unwrap();
    assert_eq!(root.layout, Some(Layout::SplitH));
    assert!(!root.focused);
    assert_eq!(root.children.len(), 2);
    assert_eq!(root.children[1].window_id, Some(2));
    assert!(root.children[1].focused);
    assert!(!root.children[0].focused);
}

#[test]
fn container_data_edits() {
    let mut c = ContainerData::new(Layout::SplitV);
    assert!(c.is_empty());
    c.add_child(NodeData::Leaf(1));
    c.add_child(NodeData::Leaf(2));
    c.insert_child(0, NodeData::Leaf(3));
    assert_eq!(c.len(), 3);
    c.set_focused_idx(2);
    assert_eq!(c.focused_idx(), 2);
    c.set_focused_idx(9);
    assert_eq!(c.focused_idx(), 2);
    match c.remove_child(2) {
        Some(NodeData::Leaf(id)) => assert_eq!(id, 2),
        _ => panic!("expected the leaf of window 2"),
    }
    assert_eq!(c.focused_idx(), 1);
    assert!(c.remove_child(5).is_none());
    c.set_layout(Layout::Stacked);
    assert_eq!(c.layout(), Layout::Stacked);
    match c.child_key(0) {
        Some(NodeData::Leaf(id)) => assert_eq!(*id, 3),
        _ => panic!("expected the leaf of window 3"),
    }
    match c.focused_child_key() {
        Some(NodeData::Leaf(id)) => assert_eq!(*id, 1),
        _ => panic!("expected the leaf of window 1"),
    }
    assert_eq!(c.children().len(), 2);
}

#[test]
fn direction_helpers() {
    assert_eq!(Direction::Left.opposite(), Direction::Right);
    assert_eq!(Direction::Up.opposite(), Direction::Down);
    assert_eq!(Direction::Down.opposite().opposite(), Direction::Down);
    assert!(Direction::Left.is_horizontal());
    assert!(!Direction::Left.is_vertical());
    assert!(Direction::Up.is_vertical());
    assert!(!Direction::Down.is_horizontal());
    assert_eq!(Layout::default(), Layout::SplitH);
    assert_eq!(layout_label(Layout::Stacked), "Stacked");
    assert_eq!(layout_label(Layout::SplitV), "SplitV");
}

/// A deterministic stream of commands: windows are never duplicated or lost, except by the
/// commands that add and remove them.
#[test]
fn random_commands_keep_windows_consistent() {
    let mut tree = ContainerTree::new();
    let mut expected: Vec<u64> = Vec::new();
    let mut next_id = 1u64;
    let mut seed = 0x2545_f491u64;
    for _ in 0..400 {
        seed = seed.wrapping_mul(6364136223846793005).wrapping_add(1442695040888963407);
        let op = (seed >> 33) % 12;
        match op {
            0 | 1 => {
                tree.insert_window(next_id);
                expected.push(next_id);
                next_id += 1;
            }
            2 => {
                if let Some(id) = tree.focused_window() {
                    assert_eq!(tree.remove_window(id), Some(id));
                    expected.retain(|&x| x != id);
                }
            }
            3 => {
                tree.split_focused(Layout::SplitV);
            }
            4 => {
                tree.split_focused(Layout::SplitH);
            }
            5 => {
                tree.set_focused_layout(Layout::Tabbed);
            }
            6 => {
                tree.focus_in_direction(Direction::Left);
            }
            7 => {
                tree.focus_in_direction(Direction::Down);
            }
            8 => {
                assert!(tree.move_is_defined(Direction::Right));
                tree.move_in_direction(Direction::Right);
            }
            9 => {
                assert!(tree.move_is_defined(Direction::Up));
                tree.move_in_direction(Direction::Up);
            }
            10 => {
                tree.focus_parent();
            }
            _ => {
                tree.focus_child();
            }
        }
        let mut windows = tree.all_windows();
        assert_eq!(windows.len(), tree.window_count());
        windows.sort();
        let mut want = expected.clone();
        want.sort();
        assert_eq!(windows, want);
        if let Some(root) = tree.layout_tree() {
            assert!(!has_empty_container(&root), "empty container after command {op}");
            assert!(tree.focused_window().is_some() || op == 10 || op == 11);
        }
    }
}

fn has_empty_container(node: &LayoutTreeNode) -> bool {
    (node.layout.is_some() && node.children.is_empty()) || node.children.iter().any(has_empty_container)
}

/// Moving the only window of a split out to the left dissolves the split and puts the
/// window before its left neighbour.
#[test]
fn moving_out_of_a_single_child_split_swaps_with_the_neighbour() {
    let mut tree = tree_of(&[1, 2]);
    assert!(tree.split_focused(Layout::SplitV));
    assert!(tree.move_in_direction(Direction::Left));
    assert_eq!(tree_text(&tree), "SplitH\n  Window 2 *\n  Window 1\n");
    assert!(tree.move_in_direction(Direction::Right));
    assert_eq!(tree_text(&tree), "SplitH\n  Window 1\n  Window 2 *\n");
}

#[test]
fn moves_keep_the_same_windows() {
    let mut tree = tree_of(&[1, 2, 3, 4]);
    assert!(tree.split_focused(Layout::SplitV));
    tree.insert_window(5);
    for direction in [Direction::Left, Direction::Up, Direction::Right, Direction::Down, Direction::Left] {
        tree.move_in_direction(direction);
        let mut windows = tree.all_windows();
        windows.sort();
        assert_eq!(windows, vec![1, 2, 3, 4, 5]);
    }
}

#[test]
fn take_root_child_splits_windows_in_order() {
    let mut tree = tree_of(&[1, 2, 3]);
    assert!(tree.focus_window_by_id(2));
    assert!(tree.split_focused(Layout::Stacked));
    tree.insert_window(4);
    assert_eq!(tree.all_windows(), vec![1, 2, 4, 3]);
    let taken = tree.take_root_child_tiles(1).unwrap();
    assert_eq!(taken, vec![2, 4]);
    assert_eq!(tree.all_windows(), vec![1, 3]);
}

#[test]
fn tiles_are_found_by_path() {
    let mut tree = tree_of(&[1, 2]);
    assert!(tree.split_focused(Layout::SplitV));
    tree.insert_window(3);
    assert_eq!(tree_text(&tree), "SplitH\n  Window 1\n  SplitV\n    Window 2\n    Window 3 *\n");
    assert_eq!(tree.tile_at_path(&[0]), Some(1));
    assert_eq!(tree.tile_at_path(&[1, 1]), Some(3));
    assert_eq!(tree.tile_at_path(&[1]), None);
    assert_eq!(tree.tile_at_path(&[]), None);
    assert_eq!(tree.tile_at_path(&[5]), None);
    assert_eq!(tree.focused_tile(), Some(3));
    assert_eq!(tree.all_tiles(), vec![1, 2, 3]);
    // Focusing the parent descends again to the focused window.
    assert!(tree.focus_parent());
    assert_eq!(tree.focused_tile(), Some(3));
    assert_eq!(ContainerTree::new().tile_at_path(&[]), None);
    assert_eq!(ContainerTree::new().focused_tile(), None);
}

#[test]
fn focused_window_is_one_of_the_windows() {
    let mut tree = tree_of(&[4, 5, 6]);
    assert!(tree.split_focused(Layout::Tabbed));
    tree.insert_window(7);
    assert!(tree.focus_in_direction(Direction::Left));
    let focused = tree.focused_window().unwrap();
    assert!(tree.all_windows().contains(&focused));
    for id in [4, 5, 6, 7] {
        assert_eq!(tree.remove_window(id), Some(id));
    }
    assert!(tree.all_windows().is_empty());
    assert_eq!(tree.focused_window(), None);
}

/// Inserting next to a window in another column shifts the focused index of the focused
/// column too, past its last child: a move up is then undefined, a move down is not.
#[test]
fn insert_after_in_other_column_leaves_focus_past_the_end() {
    let mut tree = tree_of(&[1, 2]);
    assert!(tree.split_focused(Layout::SplitV));
    tree.insert_window(3);
    assert!(tree.focus_window_by_id(1));
    assert!(tree.split_focused(Layout::SplitV));
    tree.insert_window(4);
    assert_eq!(tree.focus_path(), &[0, 1]);
    assert!(tree.move_is_defined(Direction::Up));
    assert!(tree.insert_leaf_after(2, 9, false));
    assert_eq!(
        tree_text(&tree),
        "SplitH\n  SplitV\n    Window 1\n    Window 4\n  SplitV\n    Window 2\n    Window 9\n    Window 3\n"
    );
    assert_eq!(tree.focus_path(), &[0, 2]);
    assert_eq!(tree.focused_window(), None);
    assert!(!tree.move_is_defined(Direction::Up));
    assert!(tree.move_is_defined(Direction::Down));
    assert!(!tree.move_in_direction(Direction::Down));
    // A new window then goes to the end of the focused column, and the focus stays past it.
    tree.insert_window(11);
    assert_eq!(tree.all_windows(), vec![1, 4, 11, 2, 9, 3]);
    assert_eq!(tree.focus_path(), &[0, 3]);
    assert_eq!(tree.focused_window(), None);
}

#[test]
fn inserted_window_takes_the_focus() {
    let mut tree = ContainerTree::new();
    tree.insert_window(1);
    assert_eq!(tree.focused_window(), Some(1));
    tree.insert_window(2);
    assert_eq!(tree.focused_window(), Some(2));
    assert!(tree.focus_window_by_id(1));
    assert!(tree.split_focused(Layout::Stacked));
    tree.insert_window(3);
    assert_eq!(tree.focused_window(), Some(3));
    assert!(tree.focus_parent());
    tree.insert_window(4);
    assert_eq!(tree.focused_window(), Some(4));
}

#[test]
fn node_count_counts_containers_and_windows() {
    let empty = ContainerTree::new();
    assert_eq!(empty.node_count(), 0);
    assert!(empty.has_room_for(2));
    let mut tree = tree_of(&[1]);
    assert_eq!(tree.node_count(), 1);
    tree.insert_window(2);
    assert_eq!(tree.node_count(), 3);
    assert!(tree.split_focused(Layout::SplitV));
    tree.insert_window(3);
    assert_eq!(tree.node_count(), 5);
    assert!(tree.has_room_for(0x1000_0000 - 5));
    assert!(!tree.has_room_for(0x1000_0000 - 4));
}

#[test]
fn removal_and_parent_child_focus_land_on_windows() {
    let mut tree = tree_of(&[1, 2]);
    assert!(tree.split_focused(Layout::Tabbed));
    tree.insert_window(3);
    tree.insert_window(4);
    assert!(tree.focus_window_by_id(3));
    // Focusing a window by id leaves the containers' focused children as they were, so the
    // walk down from the parent reaches the tab focused before.
    assert!(tree.focus_parent());
    assert_eq!(tree.focused_window(), Some(4));
    assert!(tree.focus_parent());
    assert!(tree.focused_window().is_some());
    assert!(tree.focus_child());
    assert!(tree.focused_window().is_some());
    assert_eq!(tree.remove_window(3), Some(3));
    assert!(tree.focused_window().is_some());
    assert_eq!(tree.remove_window(1), Some(1));
    assert!(tree.focused_window().is_some());
    assert_eq!(tree.all_windows(), vec![2, 4]);
}

#[test]
fn directional_focus_lands_on_windows() {
    let mut tree = tree_of(&[1, 2, 3]);
    assert!(tree.split_focused(Layout::SplitV));
    tree.insert_window(4);
    assert!(tree.focus_in_direction(Direction::Left));
    assert_eq!(tree.focused_window(), Some(2));
    assert!(tree.focus_in_direction(Direction::Right));
    assert_eq!(tree.focused_window(), Some(4));
    assert!(tree.focus_in_direction(Direction::Up));
    assert_eq!(tree.focused_window(), Some(3));
    assert!(!tree.focus_in_direction(Direction::Right));
    assert_eq!(tree.focused_window(), Some(3));
}

#[test]
fn layout_changes_keep_the_focused_window() {
    let mut tree = tree_of(&[1]);
    assert!(tree.split_focused(Layout::SplitV));
    assert_eq!(tree.focused_window(), Some(1));
    tree.insert_window(2);
    assert!(tree.set_focused_layout(Layout::Tabbed));
    assert_eq!(tree.focused_window(), Some(2));
    assert!(tree.split_focused(Layout::Stacked));
    assert_eq!(tree.focused_window(), Some(2));
    assert_eq!(tree_text(&tree), "Tabbed\n  Window 1\n  Stacked\n    Window 2 *\n");
    assert!(tree.set_focused_layout(Layout::SplitH));
    assert_eq!(tree.focused_window(), Some(2));
}

#[test]
fn moved_window_keeps_the_focus() {
    let mut tree = tree_of(&[1, 2, 3]);
    assert!(tree.move_in_direction(Direction::Left));
    assert_eq!(tree.focused_window(), Some(3));
    assert_eq!(tree.all_windows(), vec![1, 3, 2]);
    assert!(tree.focus_window_by_id(2));
    assert!(tree.split_focused(Layout::SplitV));
    tree.insert_window(4);
    assert!(tree.focus_window_by_id(3));
    // Into the vertical split on the right.
    assert!(tree.move_in_direction(Direction::Right));
    assert_eq!(tree.focused_window(), Some(3));
    // Out of the split again, upwards into the root.
    assert!(tree.move_in_direction(Direction::Left));
    assert_eq!(tree.focused_window(), Some(3));
    let mut windows = tree.all_windows();
    windows.sort();
    assert_eq!(windows, vec![1, 2, 3, 4]);
}

#[test]
fn taking_and_reinserting_a_root_child_restores_the_windows() {
    let mut tree = tree_of(&[1, 2, 3]);
    assert!(tree.focus_window_by_id(2));
    assert!(tree.split_focused(Layout::Tabbed));
    tree.insert_window(4);
    let before = tree.all_windows();
    assert_eq!(before, vec![1, 2, 4, 3]);
    let taken = tree.take_root_child_subtree(1).unwrap();
    assert_eq!(tree.all_windows(), vec![1, 3]);
    tree.insert_subtree_at_root(1, taken, false);
    assert_eq!(tree.all_windows(), before);

    let mut single = tree_of(&[7]);
    let taken = single.take_root_child_subtree(0).unwrap();
    assert!(single.all_windows().is_empty());
    single.insert_subtree_at_root(0, taken, true);
    assert_eq!(single.all_windows(), vec![7]);
}

#[test]
fn moving_a_root_child_there_and_back_restores_the_order() {
    let mut tree = tree_of(&[1, 2, 3, 4]);
    assert!(tree.move_root_child(0, 2));
    assert_eq!(tree.all_windows(), vec![2, 3, 1, 4]);
    assert!(tree.move_root_child(2, 0));
    assert_eq!(tree.all_windows(), vec![1, 2, 3, 4]);
    assert!(!tree.move_root_child(0, 4));
    assert_eq!(tree.all_windows(), vec![1, 2, 3, 4]);
}

#[test]
fn focusing_the_kth_window_of_a_column() {
    let mut tree = tree_of(&[1, 2]);
    assert!(tree.split_focused(Layout::SplitV));
    tree.insert_window(3);
    tree.insert_window(4);
    assert_eq!(tree.all_windows(), vec![1, 2, 3, 4]);
    assert!(tree.focus_leaf_in_root_child(1, 2));
    assert_eq!(tree.focused_window(), Some(3));
    assert!(tree.focus_leaf_in_root_child(1, 3));
    assert_eq!(tree.focused_window(), Some(4));
    assert!(tree.focus_leaf_in_root_child(0, 1));
    assert_eq!(tree.focused_window(), Some(1));
    assert!(!tree.focus_leaf_in_root_child(1, 4));
    assert!(!tree.focus_leaf_in_root_child(1, 0));
    assert!(!tree.focus_leaf_in_root_child(2, 1));
    assert_eq!(tree.focused_window(), Some(1));
}

#[test]
fn urgency_of_a_subtree() {
    let mut tree = tree_of(&[1, 2]);
    assert!(tree.split_focused(Layout::Tabbed));
    tree.insert_window(3);
    assert!(tree.subtree_has_urgent(&[1], &[9, 3]));
    assert!(!tree.subtree_has_urgent(&[0], &[9, 3]));
    assert!(tree.subtree_has_urgent(&[], &[1]));
    assert!(!tree.subtree_has_urgent(&[1], &[]));
    assert!(!tree.subtree_has_urgent(&[7], &[1, 2, 3]));
}

#[test]
fn focus_moves_in_every_direction_inside_tabs_and_stacks() {
    let mut tree = tree_of(&[1, 2]);
    assert!(tree.set_focused_layout(Layout::Tabbed));
    assert!(tree.focus_in_direction(Direction::Up));
    assert_eq!(tree.focused_window(), Some(1));
    assert!(tree.focus_in_direction(Direction::Down));
    assert_eq!(tree.focused_window(), Some(2));
    assert!(tree.set_focused_layout(Layout::Stacked));
    assert!(tree.focus_in_direction(Direction::Left));
    assert_eq!(tree.focused_window(), Some(1));
    // Moving a window, unlike the focus, follows the container's axis: down swaps in the
    // stack, left takes the window out of it.
    assert!(tree.move_in_direction(Direction::Down));
    assert_eq!(tree.all_windows(), vec![2, 1]);
    assert_eq!(tree_text(&tree), "Stacked\n  Window 2\n  Window 1 *\n");
    assert!(tree.move_in_direction(Direction::Left));
    assert_eq!(tree_text(&tree), "SplitH\n  Window 1 *\n  Window 2\n");
}

#[test]
fn moving_across_the_root_axis_wraps_the_rest_of_the_tree() {
    let mut tree = tree_of(&[1, 2, 3]);
    assert!(tree.move_in_direction(Direction::Up));
    assert_eq!(tree_text(&tree), "SplitV\n  Window 3 *\n  SplitH\n    Window 1\n    Window 2\n");
    assert_eq!(tree.focus_path(), &[0]);
    assert_eq!(tree.focused_window(), Some(3));
    // Moving down along the new root's axis enters the split beside its focused window.
    assert!(tree.move_in_direction(Direction::Down));
    assert_eq!(tree_text(&tree), "SplitV\n  SplitH\n    Window 1\n    Window 3 *\n    Window 2\n");
}

#[test]
fn moving_across_a_two_child_root_pairs_the_windows_along_the_new_axis() {
    let mut tree = tree_of(&[1, 2]);
    assert!(tree.move_in_direction(Direction::Down));
    assert_eq!(tree_text(&tree), "SplitV\n  Window 1\n  Window 2 *\n");
    assert!(tree.move_in_direction(Direction::Left));
    assert_eq!(tree_text(&tree), "SplitH\n  Window 2 *\n  Window 1\n");
    assert_eq!(tree.all_windows(), vec![2, 1]);
}

#[test]
fn a_lone_root_window_does_not_move_across_the_axis() {
    let mut tree = tree_of(&[1]);
    assert!(!tree.move_in_direction(Direction::Up));
    assert!(!tree.move_in_direction(Direction::Down));
    assert_eq!(tree.all_windows(), vec![1]);
}
