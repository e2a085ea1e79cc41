use tiri_layout::layout::container::{ContainerTree, Direction, Layout as ContainerLayout, LayoutTreeNode, layout_label};

struct TreeHarness {
    tree: ContainerTree,
}

impl TreeHarness {
    fn new() -> Self {
        Self { tree: ContainerTree::new() }
    }

    fn add_window(&mut self, id: usize) {
        self.tree.insert_window(id as u64);
    }

    fn append_window(&mut self, id: usize) {
        self.tree.append_leaf(id as u64, true);
    }
}

/// The tree drawn one node per line: containers by layout, leaves as `Window <id>`, the
/// focused leaf marked with `*`.
trait DebugTree {
    fn debug_tree(&self) -> String;
}

fn debug_tree_node(node: &LayoutTreeNode, depth: usize, out: &mut String) {
    let indent = "  ".repeat(depth);
    match (node.layout, node.window_id) {
        (Some(layout), _) => {
            out.push_str(&format!("{indent}{}\n", layout_label(layout)));
            for child in &node.children {
                debug_tree_node(child, depth + 1, out);
            }
        }
        (None, Some(id)) => {
            let focused = if node.focused { " *" } else { "" };
            out.push_str(&format!("{indent}Window {id}{focused}\n"));
        }
        (None, None) => out.push_str(&format!("{indent}(missing)\n")),
    }
}

impl DebugTree for ContainerTree {
    fn debug_tree(&self) -> String {
        let mut out = String::new();
        match self.layout_tree() {
            Some(root) => debug_tree_node(&root, 0, &mut out),
            None => out.push_str("(empty)\n"),
        }
        out
    }
}

/// An inline snapshot as written in the source: without its first and last blank lines and
/// without the indentation common to its lines.
fn snapshot(text: &str) -> String {
    let lines: Vec<&str> = text.lines().collect();
    let start = lines.iter().position(|l| !l.trim().is_empty()).unwrap_or(lines.len());
    let end = lines.iter().rposition(|l| !l.trim().is_empty()).map_or(start, |e| e + 1);
    let body = &lines[start..end];
    let indent = body
        .iter()
        .filter(|l| !l.trim().is_empty())
        .map(|l| l.len() - l.trim_start().len())
        .min()
        .unwrap_or(0);
    body.iter()
        .map(|l| if l.len() >= indent { &l[indent..] } else { l.trim_start() })
        .collect::<Vec<_>>()
        .join("\n")
}

fn parse_debug_tree_windows(tree: &str) -> (Vec<usize>, usize, Option<usize>) {
    let mut ids = Vec::new();
    let mut focused_count = 0usize;
    let mut focused_id = None;

    for line in tree.lines() {
        let trimmed = line.trim();
        let Some(rest) = trimmed.strip_prefix("Window ") else {
            continue;
        };

        let is_focused = rest.ends_with('*');
        let id_text = rest.trim_end_matches('*').trim();
        let id = id_text
            .parse::<usize>()
            .expect("window line in debug tree should contain a numeric id");

        ids.push(id);
        if is_focused {
            focused_count += 1;
            focused_id = Some(id);
        }
    }

    (ids, focused_count, focused_id)
}

fn count_root_children_in_debug_tree(tree: &str) -> usize {
    tree.lines()
        .filter(|line| line.starts_with("  ") && !line.starts_with("    "))
        .count()
}

fn assert_tree(actual: &str, expected: &str) {
    assert_eq!(actual.trim_end(), snapshot(expected));
}

#[test]
fn move_right_escapes_to_grandparent_on_layout_mismatch() {
    let mut harness = TreeHarness::new();
    harness.add_window(1);
    harness.add_window(2);
    assert!(harness.tree.focus_in_direction(Direction::Left));
    harness.tree.split_focused(ContainerLayout::SplitV);
    harness.add_window(3);
    assert!(harness.tree.move_in_direction(Direction::Right));

    let tree = harness.tree.debug_tree();
    assert_tree(tree.as_str(), "
    SplitH
      SplitV
        Window 1
      Window 3 *
      Window 2
    "
    );
}

#[test]
fn focus_descends_into_last_focused_child() {
    let mut harness = TreeHarness::new();
    harness.add_window(1);
    harness.add_window(2);
    assert!(harness.tree.focus_in_direction(Direction::Left));
    harness.tree.split_focused(ContainerLayout::SplitV);
    harness.add_window(3);
    assert!(harness.tree.focus_window_by_id(3));
    assert!(harness.tree.focus_in_direction(Direction::Right));
    assert!(harness.tree.focus_in_direction(Direction::Left));

    let tree = harness.tree.debug_tree();
    assert_tree(tree.as_str(), "
    SplitH
      SplitV
        Window 1
        Window 3 *
      Window 2
    "
    );
}

#[test]
fn cleanup_preserves_single_explicit_split_for_future_inserts() {
    let mut harness = TreeHarness::new();
    harness.add_window(1);
    harness.add_window(2);
    assert!(harness.tree.focus_in_direction(Direction::Left));
    harness.tree.split_focused(ContainerLayout::SplitV);
    harness.add_window(3);
    let _ = harness.tree.remove_window(3);

    harness.add_window(4);

    let tree = harness.tree.debug_tree();
    assert_tree(tree.as_str(), "
    SplitH
      SplitV
        Window 1
        Window 4 *
      Window 2
    "
    );
}

#[test]
fn keep_tabbed_container_on_cleanup_with_split_parent() {
    let mut harness = TreeHarness::new();
    harness.add_window(1);
    harness.add_window(2);
    assert!(harness.tree.focus_window_by_id(2));
    harness.tree.split_focused(ContainerLayout::Tabbed);
    harness.add_window(3);
    harness.add_window(4);
    let _ = harness.tree.remove_window(4);

    let tree = harness.tree.debug_tree();
    assert!(
        tree.contains("Tabbed"),
        "tabbed container should be preserved on cleanup:\n{tree}"
    );
}

#[test]
fn keep_stacked_container_on_cleanup_with_split_parent() {
    let mut harness = TreeHarness::new();
    harness.add_window(1);
    harness.add_window(2);
    assert!(harness.tree.set_focused_layout(ContainerLayout::SplitV));
    assert!(harness.tree.focus_window_by_id(2));
    harness.tree.split_focused(ContainerLayout::Stacked);
    harness.add_window(3);
    harness.add_window(4);
    let _ = harness.tree.remove_window(4);

    let tree = harness.tree.debug_tree();
    assert!(
        tree.contains("Stacked"),
        "stacked container should be preserved on cleanup:\n{tree}"
    );
}

#[test]
fn move_right_swaps_with_sibling_in_same_layout() {
    let mut harness = TreeHarness::new();
    harness.add_window(1);
    harness.add_window(2);
    harness.add_window(3);
    assert!(harness.tree.focus_in_direction(Direction::Left));
    assert!(harness.tree.move_in_direction(Direction::Right));

    let tree = harness.tree.debug_tree();
    assert_tree(tree.as_str(), "
    SplitH
      Window 1
      Window 3
      Window 2 *
    "
    );
}

#[test]
fn move_down_swaps_in_splitv() {
    let mut harness = TreeHarness::new();
    harness.add_window(1);
    harness.add_window(2);
    harness.add_window(3);
    assert!(harness.tree.set_focused_layout(ContainerLayout::SplitV));
    assert!(harness.tree.focus_in_direction(Direction::Up));
    assert!(harness.tree.move_in_direction(Direction::Down));

    let tree = harness.tree.debug_tree();
    assert_tree(tree.as_str(), "
    SplitV
      Window 1
      Window 3
      Window 2 *
    "
    );
}

#[test]
fn move_up_escapes_to_grandparent_on_layout_mismatch() {
    let mut harness = TreeHarness::new();
    harness.add_window(1);
    harness.add_window(2);
    assert!(harness.tree.set_focused_layout(ContainerLayout::SplitV));
    harness.tree.split_focused(ContainerLayout::SplitH);
    harness.add_window(3);
    assert!(harness.tree.focus_in_direction(Direction::Left));
    assert!(harness.tree.move_in_direction(Direction::Up));

    let tree = harness.tree.debug_tree();
    assert_tree(tree.as_str(), "
    SplitV
      Window 1
      Window 2 *
      SplitH
        Window 3
    "
    );
}

#[test]
fn preserve_single_child_container_with_different_layout() {
    let mut harness = TreeHarness::new();
    harness.add_window(1);
    harness.add_window(2);
    assert!(harness.tree.focus_in_direction(Direction::Left));
    harness.tree.split_focused(ContainerLayout::SplitV);
    harness.add_window(3);
    let _ = harness.tree.remove_window(3);

    let tree = harness.tree.debug_tree();
    assert_tree(tree.as_str(), "
    SplitH
      SplitV
        Window 1 *
      Window 2
    "
    );
}

#[test]
fn move_right_enters_tabbed_container() {
    let mut harness = TreeHarness::new();
    harness.add_window(1);
    harness.add_window(2);
    harness.tree.split_focused(ContainerLayout::Tabbed);
    harness.add_window(3);
    assert!(harness.tree.focus_window_by_id(1));
    assert!(harness.tree.move_in_direction(Direction::Right));

    let tree = harness.tree.debug_tree();
    assert_tree(tree.as_str(), "
    SplitH
      Tabbed
        Window 2
        Window 3
        Window 1 *
    "
    );
}

#[test]
fn move_left_swaps_in_tabbed_layout() {
    let mut harness = TreeHarness::new();
    harness.add_window(1);
    harness.add_window(2);
    harness.add_window(3);
    assert!(harness.tree.set_focused_layout(ContainerLayout::Tabbed));
    assert!(harness.tree.move_in_direction(Direction::Left));

    let tree = harness.tree.debug_tree();
    assert_tree(tree.as_str(), "
    Tabbed
      Window 1
      Window 3 *
      Window 2
    "
    );
}

#[test]
fn split_inside_tabbed_creates_nested_split() {
    let mut harness = TreeHarness::new();
    harness.add_window(1);
    harness.add_window(2);
    assert!(harness.tree.set_focused_layout(ContainerLayout::Tabbed));
    assert!(harness.tree.focus_window_by_id(1));
    assert!(harness.tree.split_focused(ContainerLayout::SplitH));
    harness.add_window(3);

    let tree = harness.tree.debug_tree();
    assert_tree(tree.as_str(), "
    Tabbed
      SplitH
        Window 1
        Window 3 *
      Window 2
    "
    );
}

#[test]
fn move_down_swaps_in_stacked_layout() {
    let mut harness = TreeHarness::new();
    harness.add_window(1);
    harness.add_window(2);
    harness.add_window(3);
    assert!(harness.tree.set_focused_layout(ContainerLayout::Stacked));
    assert!(harness.tree.focus_in_direction(Direction::Up));
    assert!(harness.tree.move_in_direction(Direction::Down));

    let tree = harness.tree.debug_tree();
    assert_tree(tree.as_str(), "
    Stacked
      Window 1
      Window 3
      Window 2 *
    "
    );
}

#[test]
fn move_left_at_edge_is_noop() {
    let mut harness = TreeHarness::new();
    harness.add_window(1);
    harness.add_window(2);
    assert!(harness.tree.focus_in_direction(Direction::Left));
    assert!(!harness.tree.move_in_direction(Direction::Left));

    let tree = harness.tree.debug_tree();
    assert_tree(tree.as_str(), "
    SplitH
      Window 1 *
      Window 2
    "
    );
}

#[test]
fn move_up_at_edge_is_noop() {
    let mut harness = TreeHarness::new();
    harness.add_window(1);
    harness.add_window(2);
    assert!(harness.tree.set_focused_layout(ContainerLayout::SplitV));
    assert!(harness.tree.focus_in_direction(Direction::Up));
    assert!(!harness.tree.move_in_direction(Direction::Up));

    let tree = harness.tree.debug_tree();
    assert_tree(tree.as_str(), "
    SplitV
      Window 1 *
      Window 2
    "
    );
}

#[test]
fn i3_122_repeated_split_on_single_window_does_not_nest_wrappers() {
    let mut harness = TreeHarness::new();
    harness.add_window(1);

    assert!(harness.tree.split_focused(ContainerLayout::SplitV));
    let before = harness.tree.debug_tree().replace(" *", "");

    let _ = harness.tree.split_focused(ContainerLayout::SplitV);
    let after = harness.tree.debug_tree().replace(" *", "");

    assert_eq!(
        after, before,
        "repeating split on a single focused window should not keep nesting redundant wrappers",
    );
}

#[test]
fn i3_122_split_inside_stacked_creates_nested_split() {
    let mut harness = TreeHarness::new();
    harness.add_window(1);
    assert!(harness.tree.set_focused_layout(ContainerLayout::Stacked));
    assert!(harness.tree.split_focused(ContainerLayout::SplitH));
    harness.add_window(2);

    let tree = harness.tree.debug_tree();
    assert_tree(tree.as_str(), "
    Stacked
      SplitH
        Window 1
        Window 2 *
    "
    );
}

#[test]
fn i3_122_split_workspace_with_multiple_children_wraps_focused_branch() {
    let mut harness = TreeHarness::new();
    harness.add_window(1);
    harness.add_window(2);

    assert!(harness.tree.focus_root_child(0));
    assert!(harness.tree.split_focused(ContainerLayout::SplitV));
    harness.add_window(3);

    let tree = harness.tree.debug_tree();
    assert_tree(tree.as_str(), "
    SplitH
      SplitV
        Window 1
        Window 3 *
      Window 2
    "
    );
}

#[test]
fn i3_122_repeated_split_without_new_window_keeps_tree_shape() {
    let mut harness = TreeHarness::new();
    harness.add_window(1);
    harness.add_window(2);

    assert!(harness.tree.focus_root_child(0));
    assert!(harness.tree.split_focused(ContainerLayout::SplitV));
    harness.add_window(3);
    let before = harness.tree.debug_tree().replace(" *", "");

    let _ = harness.tree.split_focused(ContainerLayout::SplitV);
    let after = harness.tree.debug_tree().replace(" *", "");

    assert_eq!(
        after, before,
        "repeating split without opening a new window should not create extra container structure",
    );
}

#[test]
fn i3_124_move_single_window_is_noop() {
    let mut harness = TreeHarness::new();
    harness.add_window(1);

    let before = harness.tree.debug_tree();
    assert!(!harness.tree.move_in_direction(Direction::Left));
    assert!(!harness.tree.move_in_direction(Direction::Right));
    assert!(!harness.tree.move_in_direction(Direction::Up));
    assert!(!harness.tree.move_in_direction(Direction::Down));
    let after = harness.tree.debug_tree();

    assert_eq!(
        after, before,
        "moving a single container in any direction should be a no-op",
    );
}

#[test]
fn i3_124_move_window_out_of_split_on_layout_mismatch() {
    let mut harness = TreeHarness::new();
    harness.add_window(1);
    harness.add_window(2);
    assert!(harness.tree.focus_in_direction(Direction::Left));
    harness.tree.split_focused(ContainerLayout::SplitV);
    harness.add_window(3);
    assert!(harness.tree.move_in_direction(Direction::Right));

    let tree = harness.tree.debug_tree();
    assert_tree(tree.as_str(), "
    SplitH
      SplitV
        Window 1
      Window 3 *
      Window 2
    "
    );
}

#[test]
fn focus_parent_at_root_is_noop() {
    let mut harness = TreeHarness::new();
    harness.add_window(1);

    // Single window at root - focus_parent should return false
    assert!(!harness.tree.focus_parent());
}

#[test]
fn focus_parent_child_roundtrip_in_nested_splitv() {
    // Based on focus_descends_into_last_focused_child pattern
    let mut harness = TreeHarness::new();
    harness.add_window(1);
    harness.add_window(2);
    assert!(harness.tree.focus_in_direction(Direction::Left));
    harness.tree.split_focused(ContainerLayout::SplitV);
    harness.add_window(3);
    assert!(harness.tree.focus_window_by_id(3));

    let tree_before = harness.tree.debug_tree();

    // Go up to parent (SplitV container)
    assert!(harness.tree.focus_parent());

    // Go back down to child (should return to window 3)
    assert!(harness.tree.focus_child());

    let tree_after = harness.tree.debug_tree();

    // Tree should be the same (window 3 still focused)
    assert_eq!(tree_before.as_str(), tree_after.as_str());
}

#[test]
fn focus_parent_traverses_hierarchy() {
    let mut harness = TreeHarness::new();
    harness.add_window(1);
    harness.add_window(2);
    assert!(harness.tree.focus_in_direction(Direction::Left));
    harness.tree.split_focused(ContainerLayout::SplitV);
    harness.add_window(3);
    assert!(harness.tree.focus_window_by_id(3));

    // Count how many times we can go up
    let mut levels = 0;
    while harness.tree.focus_parent() {
        levels += 1;
        // Safeguard against infinite loop
        if levels > 10 {
            break;
        }
    }

    // We should be able to go up at least once (from window to container)
    assert!(levels >= 1);
}

#[test]
fn i3_124_move_left_then_right_swaps_root_siblings_without_extra_changes() {
    let mut harness = TreeHarness::new();
    harness.add_window(1);
    harness.add_window(2);

    assert!(harness.tree.move_in_direction(Direction::Left));
    let after_left = harness.tree.debug_tree();
    assert_eq!(
        parse_debug_tree_windows(&after_left),
        (vec![2, 1], 1, Some(2)),
        "moving the second root sibling left should swap it before the first:\n{after_left}",
    );

    assert!(!harness.tree.move_in_direction(Direction::Left));
    let after_second_left = harness.tree.debug_tree();
    assert_eq!(
        parse_debug_tree_windows(&after_second_left),
        (vec![2, 1], 1, Some(2)),
        "moving left again at the edge should be a no-op:\n{after_second_left}",
    );

    assert!(harness.tree.move_in_direction(Direction::Right));
    let after_right = harness.tree.debug_tree();
    assert_eq!(
        parse_debug_tree_windows(&after_right),
        (vec![1, 2], 1, Some(2)),
        "moving right should swap the root siblings back:\n{after_right}",
    );

    assert!(!harness.tree.move_in_direction(Direction::Right));
    let after_second_right = harness.tree.debug_tree();
    assert_eq!(
        parse_debug_tree_windows(&after_second_right),
        (vec![1, 2], 1, Some(2)),
        "moving right again at the edge should be a no-op:\n{after_second_right}",
    );
}

#[test]
fn i3_550_tabbed_then_stacked_on_single_leaf_keeps_single_wrapper() {
    let mut harness = TreeHarness::new();
    harness.add_window(1);

    assert!(harness.tree.set_focused_layout(ContainerLayout::Tabbed));
    assert!(harness.tree.set_focused_layout(ContainerLayout::Stacked));

    let tree = harness.tree.debug_tree();
    assert_tree(tree.as_str(), "
    Stacked
      Window 1 *
    "
    );
}

#[test]
fn i3_550_split_inside_tabbed_keeps_single_nested_split_wrapper() {
    let mut harness = TreeHarness::new();
    harness.add_window(1);

    assert!(harness.tree.set_focused_layout(ContainerLayout::Tabbed));
    assert!(harness.tree.split_focused(ContainerLayout::SplitV));

    let tree = harness.tree.debug_tree();
    assert_tree(tree.as_str(), "
    Tabbed
      SplitV
        Window 1 *
    "
    );
}

#[test]
fn i3_550_tabbed_with_two_nodes_inside_other_tabbed_stays_two_level() {
    let mut harness = TreeHarness::new();
    harness.add_window(1);

    assert!(harness.tree.set_focused_layout(ContainerLayout::Tabbed));
    assert!(harness.tree.split_focused(ContainerLayout::SplitV));
    harness.add_window(2);
    assert!(harness.tree.set_focused_layout(ContainerLayout::Tabbed));

    let tree = harness.tree.debug_tree();
    assert_tree(tree.as_str(), "
    Tabbed
      Tabbed
        Window 1
        Window 2 *
    "
    );
}

#[test]
fn removing_window_above_preserves_focused_window() {
    let mut harness = TreeHarness::new();
    harness.add_window(1);
    harness.add_window(2);
    harness.add_window(3);
    assert!(harness.tree.set_focused_layout(ContainerLayout::SplitV));

    // Focus middle window and remove the window above it.
    assert!(harness.tree.focus_window_by_id(2));
    let before = harness.tree.debug_tree();
    assert!(before.contains("Window 2 *"));

    let _ = harness.tree.remove_window(1);

    let after = harness.tree.debug_tree();
    assert!(after.contains("Window 2 *"));
}

#[test]
fn move_right_enters_container_with_different_layout() {
    let mut harness = TreeHarness::new();
    harness.add_window(1);
    harness.add_window(2);
    harness.tree.split_focused(ContainerLayout::SplitV);
    harness.add_window(3);
    assert!(harness.tree.focus_in_direction(Direction::Left));
    assert!(harness.tree.move_in_direction(Direction::Right));

    let tree = harness.tree.debug_tree();
    assert_tree(tree.as_str(), "
    SplitH
      SplitV
        Window 2
        Window 1 *
        Window 3
    "
    );
}

#[test]
fn preserve_explicit_same_layout_container_on_cleanup() {
    let mut harness = TreeHarness::new();
    harness.add_window(1);
    harness.add_window(2);
    assert!(harness.tree.focus_in_direction(Direction::Left));
    harness.tree.split_focused(ContainerLayout::SplitV);
    harness.add_window(3);
    harness.add_window(4);
    assert!(harness.tree.focus_in_direction(Direction::Right));
    assert!(harness.tree.set_focused_layout(ContainerLayout::SplitV));
    let _ = harness.tree.remove_window(3);

    let tree = harness.tree.debug_tree();
    assert_tree(tree.as_str(), "
    SplitV
      SplitV
        Window 1
        Window 4
      Window 2 *
    "
    );
}

#[test]
fn cleanup_reuses_last_root_layout_after_tree_becomes_empty() {
    let mut harness = TreeHarness::new();
    harness.add_window(1);
    assert!(harness.tree.set_focused_layout(ContainerLayout::Tabbed));
    let _ = harness.tree.remove_window(1);

    harness.add_window(2);

    let tree = harness.tree.debug_tree();
    assert_tree(tree.as_str(), "
    Tabbed
      Window 2 *
    "
    );
}

#[test]
fn move_left_enters_single_child_container() {
    let mut harness = TreeHarness::new();
    harness.add_window(1);
    harness.add_window(2);
    assert!(harness.tree.focus_in_direction(Direction::Left));
    harness.tree.split_focused(ContainerLayout::SplitV);
    harness.add_window(3);
    let _ = harness.tree.remove_window(3);
    assert!(harness.tree.focus_window_by_id(2));
    assert!(harness.tree.move_in_direction(Direction::Left));

    let tree = harness.tree.debug_tree();
    assert_tree(tree.as_str(), "
    SplitH
      SplitV
        Window 1
        Window 2 *
    "
    );
}

#[test]
fn move_down_enters_container_with_different_layout() {
    let mut harness = TreeHarness::new();
    harness.add_window(1);
    harness.add_window(2);
    assert!(harness.tree.set_focused_layout(ContainerLayout::SplitV));
    harness.tree.split_focused(ContainerLayout::SplitH);
    harness.add_window(3);
    assert!(harness.tree.focus_in_direction(Direction::Up));
    assert!(harness.tree.move_in_direction(Direction::Down));

    let tree = harness.tree.debug_tree();
    assert_tree(tree.as_str(), "
    SplitV
      SplitH
        Window 2
        Window 1 *
        Window 3
    "
    );
}

#[test]
fn move_left_enters_container_with_different_layout() {
    let mut harness = TreeHarness::new();
    harness.add_window(1);
    harness.add_window(2);
    assert!(harness.tree.focus_in_direction(Direction::Left));
    harness.tree.split_focused(ContainerLayout::SplitV);
    harness.add_window(3);
    assert!(harness.tree.focus_in_direction(Direction::Right));
    assert!(harness.tree.move_in_direction(Direction::Left));

    let tree = harness.tree.debug_tree();
    assert_tree(tree.as_str(), "
    SplitH
      SplitV
        Window 1
        Window 3
        Window 2 *
    "
    );
}

#[test]
fn move_up_enters_container_with_different_layout() {
    let mut harness = TreeHarness::new();
    harness.add_window(1);
    harness.add_window(2);
    assert!(harness.tree.set_focused_layout(ContainerLayout::SplitV));
    assert!(harness.tree.focus_in_direction(Direction::Up));
    harness.tree.split_focused(ContainerLayout::SplitH);
    harness.add_window(3);
    assert!(harness.tree.focus_in_direction(Direction::Down));
    assert!(harness.tree.move_in_direction(Direction::Up));

    let tree = harness.tree.debug_tree();
    assert_tree(tree.as_str(), "
    SplitV
      SplitH
        Window 1
        Window 3
        Window 2 *
    "
    );
}

#[test]
fn replace_single_child_container_with_same_layout() {
    let mut harness = TreeHarness::new();
    harness.add_window(1);
    harness.add_window(2);
    assert!(harness.tree.focus_in_direction(Direction::Left));
    harness.tree.split_focused(ContainerLayout::SplitV);
    harness.add_window(3);
    assert!(harness.tree.set_focused_layout(ContainerLayout::SplitH));
    let _ = harness.tree.remove_window(3);

    let tree = harness.tree.debug_tree();
    assert_tree(tree.as_str(), "
    SplitH
      SplitH
        Window 1 *
      Window 2
    "
    );
}

#[test]
fn i3_122_split_on_empty_workspace_applies_to_next_window() {
    let mut harness = TreeHarness::new();
    assert!(harness.tree.split_focused(ContainerLayout::SplitV));
    harness.add_window(1);

    let tree = harness.tree.debug_tree();
    assert_tree(tree.as_str(), "
    SplitV
      Window 1 *
    "
    );
}

#[test]
fn i3_122_split_on_single_window_persists_after_close() {
    let mut harness = TreeHarness::new();
    harness.add_window(1);
    assert!(harness.tree.split_focused(ContainerLayout::SplitV));
    let _ = harness.tree.remove_window(1);
    harness.add_window(2);

    let tree = harness.tree.debug_tree();
    assert_tree(tree.as_str(), "
    SplitV
      Window 2 *
    "
    );
}

#[test]
fn split_on_empty_workspace_applies_to_next_window() {
    let mut harness = TreeHarness::new();
    assert!(harness.tree.split_focused(ContainerLayout::SplitV));
    harness.add_window(1);

    let tree = harness.tree.debug_tree();
    assert_tree(tree.as_str(), "
    SplitV
      Window 1 *
    "
    );
}

#[test]
fn split_on_empty_workspace_applies_to_next_window_via_append() {
    let mut harness = TreeHarness::new();
    assert!(harness.tree.split_focused(ContainerLayout::SplitV));
    harness.append_window(1);

    let tree = harness.tree.debug_tree();
    assert_tree(tree.as_str(), "
    SplitV
      Window 1 *
    "
    );
}

#[test]
fn layout_persists_after_last_window_closed() {
    let mut harness = TreeHarness::new();
    assert!(harness.tree.split_focused(ContainerLayout::SplitV));
    harness.add_window(1);
    let _ = harness.tree.remove_window(1);
    harness.add_window(2);

    let tree = harness.tree.debug_tree();
    assert_tree(tree.as_str(), "
    SplitV
      Window 2 *
    "
    );
}

#[test]
fn layout_persists_after_last_window_closed_via_append() {
    let mut harness = TreeHarness::new();
    assert!(harness.tree.split_focused(ContainerLayout::SplitV));
    harness.append_window(1);
    let _ = harness.tree.remove_window(1);
    harness.append_window(2);

    let tree = harness.tree.debug_tree();
    assert_tree(tree.as_str(), "
    SplitV
      Window 2 *
    "
    );
}

#[test]
fn split_on_single_window_persists_after_close() {
    let mut harness = TreeHarness::new();
    harness.add_window(1);
    assert!(harness.tree.split_focused(ContainerLayout::SplitV));
    let _ = harness.tree.remove_window(1);
    harness.add_window(2);

    let tree = harness.tree.debug_tree();
    assert_tree(tree.as_str(), "
    SplitV
      Window 2 *
    "
    );
}

#[test]
fn split_parallel_with_siblings_wraps_focused_leaf_horizontal() {
    let mut harness = TreeHarness::new();
    harness.add_window(1);
    harness.add_window(2);
    assert!(harness.tree.focus_window_by_id(2));
    assert!(harness.tree.split_focused(ContainerLayout::SplitH));

    let tree = harness.tree.debug_tree();
    assert_tree(tree.as_str(), "
    SplitH
      Window 1
      SplitH
        Window 2 *
    "
    );
}

#[test]
fn split_parallel_with_siblings_wraps_focused_leaf_vertical() {
    let mut harness = TreeHarness::new();
    harness.add_window(1);
    harness.add_window(2);
    assert!(harness.tree.set_focused_layout(ContainerLayout::SplitV));
    assert!(harness.tree.focus_window_by_id(2));
    assert!(harness.tree.split_focused(ContainerLayout::SplitV));

    let tree = harness.tree.debug_tree();
    assert_tree(tree.as_str(), "
    SplitV
      Window 1
      SplitV
        Window 2 *
    "
    );
}

#[test]
fn removing_last_sibling_flattens_non_preserved_root_container() {
    let mut harness = TreeHarness::new();
    harness.add_window(1);
    harness.add_window(2);

    assert!(harness.tree.focus_window_by_id(1));
    assert!(harness.tree.split_focused(ContainerLayout::Stacked));
    assert!(harness.tree.focus_window_by_id(2));
    assert!(harness.tree.split_focused(ContainerLayout::SplitH));

    let _ = harness.tree.remove_window(2);

    let tree = harness.tree.debug_tree();
    assert_tree(tree.as_str(), "
    Stacked
      Window 1 *
    "
    );
}

#[test]
fn move_right_from_single_child_container_is_atomic() {
    let mut harness = TreeHarness::new();
    harness.add_window(1);
    harness.add_window(2);
    harness.add_window(3);

    assert!(harness.tree.focus_root_child(0));
    assert!(harness.tree.split_focused(ContainerLayout::SplitV));
    harness.add_window(4);
    let _ = harness.tree.remove_window(4);

    assert!(harness.tree.focus_root_child(0));
    assert!(harness.tree.move_in_direction(Direction::Right));

    let tree = harness.tree.debug_tree();
    assert_tree(tree.as_str(), "
    SplitH
      Window 2
      Window 1 *
      Window 3
    "
    );
}

#[test]
fn move_left_swaps_single_child_container_immediately() {
    let mut harness = TreeHarness::new();
    harness.add_window(1);
    harness.add_window(2);
    harness.add_window(3);

    assert!(harness.tree.focus_root_child(1));
    assert!(harness.tree.split_focused(ContainerLayout::SplitV));
    harness.add_window(4);
    let _ = harness.tree.remove_window(4);
    assert!(harness.tree.focus_window_by_id(2));

    assert!(harness.tree.move_in_direction(Direction::Left));

    let tree = harness.tree.debug_tree();
    assert_tree(tree.as_str(), "
    SplitH
      Window 2 *
      Window 1
      Window 3
    "
    );
}

#[test]
fn i3_124_move_window_into_adjacent_split_container() {
    let mut harness = TreeHarness::new();
    harness.add_window(1);
    harness.add_window(2);
    harness.tree.split_focused(ContainerLayout::SplitV);
    harness.add_window(3);
    assert!(harness.tree.focus_in_direction(Direction::Left));
    assert!(harness.tree.move_in_direction(Direction::Right));

    let tree = harness.tree.debug_tree();
    assert_tree(tree.as_str(), "
    SplitH
      SplitV
        Window 2
        Window 1 *
        Window 3
    "
    );
}

#[test]
fn i3_130_closing_last_children_removes_empty_split_wrapper() {
    let mut harness = TreeHarness::new();
    harness.add_window(1);
    harness.add_window(2);
    assert!(harness.tree.focus_window_by_id(1));
    assert!(harness.tree.split_focused(ContainerLayout::SplitV));
    harness.add_window(3);

    let _ = harness.tree.remove_window(3);
    let _ = harness.tree.remove_window(1);

    let tree = harness.tree.debug_tree();
    assert_tree(tree.as_str(), "
    Window 2 *
    "
    );
}

#[test]
fn i3_550_repeated_split_toggles_on_single_leaf_keep_one_wrapper() {
    let mut harness = TreeHarness::new();
    harness.add_window(1);

    assert!(harness.tree.split_focused(ContainerLayout::SplitV));
    assert!(harness.tree.split_focused(ContainerLayout::SplitH));
    assert!(harness.tree.split_focused(ContainerLayout::SplitV));

    let tree = harness.tree.debug_tree();
    assert_tree(tree.as_str(), "
    SplitV
      Window 1 *
    "
    );
}

#[test]
fn move_up_escapes_tabbed_layout() {
    let mut harness = TreeHarness::new();
    harness.add_window(1);
    harness.add_window(2);
    assert!(harness.tree.set_focused_layout(ContainerLayout::SplitV));
    harness.tree.split_focused(ContainerLayout::Tabbed);
    harness.add_window(3);
    assert!(harness.tree.focus_window_by_id(2));
    assert!(harness.tree.move_in_direction(Direction::Up));

    let tree = harness.tree.debug_tree();
    assert_tree(tree.as_str(), "
    SplitV
      Window 1
      Window 2 *
      Tabbed
        Window 3
    "
    );
}

#[test]
fn move_left_escapes_stacked_layout() {
    let mut harness = TreeHarness::new();
    harness.add_window(1);
    harness.add_window(2);
    harness.tree.split_focused(ContainerLayout::Stacked);
    harness.add_window(3);
    assert!(harness.tree.focus_window_by_id(2));
    assert!(harness.tree.move_in_direction(Direction::Left));

    let tree = harness.tree.debug_tree();
    assert_tree(tree.as_str(), "
    SplitH
      Window 1
      Window 2 *
      Stacked
        Window 3
    "
    );
}

#[test]
fn i3_145_move_up_then_right_flattens_back_to_root_siblings() {
    let mut harness = TreeHarness::new();
    harness.add_window(1);
    harness.add_window(2);
    harness.add_window(3);

    assert!(harness.tree.move_in_direction(Direction::Up));
    assert!(harness.tree.move_in_direction(Direction::Right));

    let tree = harness.tree.debug_tree();
    assert_tree(tree.as_str(), "
    SplitH
      Window 1
      Window 2
      Window 3 *
    "
    );
}
