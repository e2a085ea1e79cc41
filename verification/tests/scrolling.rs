use tiri_layout::layout::container::Layout;
use tiri_layout::layout::scrolling::{Column, ScrollDirection, ScrollingSpace, WindowHeight};

fn space_of(ids: &[u64]) -> ScrollingSpace {
    let mut space = ScrollingSpace::new();
    for &id in ids {
        space.add_window(id);
    }
    space
}

#[test]
fn new_space_is_empty() {
    let space = ScrollingSpace::new();
    assert!(space.is_empty());
    assert_eq!(space.active_window(), None);
    assert!(space.windows().is_empty());
}

#[test]
fn added_windows_are_listed_and_last_is_active() {
    let space = space_of(&[1, 2, 3]);
    assert_eq!(space.windows(), vec![1, 2, 3]);
    assert_eq!(space.active_window(), Some(3));
    assert_eq!(space.find_window(2), Some((0, 0)));
    assert_eq!(space.find_window(9), None);
    assert_eq!(space.tree().window_count(), 3);
}

#[test]
fn focus_commands() {
    let mut space = space_of(&[1, 2, 3]);
    assert!(space.focus_left());
    assert_eq!(space.active_window(), Some(2));
    assert!(space.focus_right());
    assert_eq!(space.active_window(), Some(3));
    assert!(!space.focus_up());
    assert!(!space.focus_down());
    space.focus_column(1);
    assert_eq!(space.active_window(), Some(1));
    space.focus_column(0);
    assert_eq!(space.active_window(), Some(1));
    space.focus_column_last();
    assert_eq!(space.active_window(), Some(3));
    space.focus_column_first();
    assert_eq!(space.active_window(), Some(1));
}

#[test]
fn focus_down_or_left_falls_back_to_left() {
    let mut space = space_of(&[1, 2]);
    space.focus_down_or_left();
    assert_eq!(space.active_window(), Some(1));
    space.focus_up_or_right();
    assert_eq!(space.active_window(), Some(2));
}

#[test]
fn move_commands_swap_columns() {
    let mut space = space_of(&[1, 2, 3]);
    assert!(space.move_left());
    assert_eq!(space.windows(), vec![1, 3, 2]);
    assert!(space.move_right());
    assert_eq!(space.windows(), vec![1, 2, 3]);
    // Up, across the row of columns, puts the window above all the others.
    assert!(space.move_up());
    assert_eq!(space.windows(), vec![3, 1, 2]);
    assert_eq!(space.active_window(), Some(3));
}

#[test]
fn column_moves_follow_focused_column() {
    let mut space = space_of(&[1, 2, 3]);
    space.move_column_to_first();
    assert_eq!(space.windows(), vec![3, 1, 2]);
    assert_eq!(space.active_window(), Some(3));
    space.move_column_to_index(3);
    assert_eq!(space.windows(), vec![1, 2, 3]);
    space.move_column_to_index(0);
    assert_eq!(space.windows(), vec![1, 2, 3]);
    space.focus_column(1);
    space.move_column_to_last();
    assert_eq!(space.windows(), vec![2, 3, 1]);
    assert_eq!(space.active_window(), Some(1));
}

#[test]
fn consume_or_expel_moves_or_splits() {
    let mut space = space_of(&[1, 2, 3]);
    space.consume_or_expel_window_left(None);
    assert_eq!(space.windows(), vec![1, 3, 2]);
    space.consume_or_expel_window_left(Some(1));
    assert_eq!(space.windows(), vec![1, 3, 2]);
    assert_eq!(space.tree().container_info(&[0]), Some((Layout::SplitV, 1)));
}

#[test]
fn splits_and_layout_modes() {
    let mut space = space_of(&[1, 2]);
    space.split_vertical();
    assert_eq!(space.tree().container_info(&[1]), Some((Layout::SplitV, 1)));
    space.set_layout_mode(Layout::Tabbed);
    assert_eq!(space.tree().container_info(&[1]), Some((Layout::Tabbed, 1)));
    space.expel_from_column();
    assert_eq!(space.tree().container_info(&[1, 0]), Some((Layout::SplitH, 1)));
}

#[test]
fn window_in_column_counts_from_one() {
    let mut space = space_of(&[1, 2]);
    space.consume_into_column();
    space.add_window(3);
    space.focus_window_in_column(1);
    assert_eq!(space.active_window(), Some(2));
    space.focus_bottom();
    assert_eq!(space.active_window(), Some(3));
    space.focus_top();
    assert_eq!(space.active_window(), Some(2));
    space.focus_window_in_column(0);
    assert_eq!(space.active_window(), Some(2));
}

#[test]
fn adding_tiles() {
    let mut space = space_of(&[1]);
    space.add_tile(Some(0), 9, false);
    assert_eq!(space.windows(), vec![9, 1]);
    space.add_tile(None, 8, true);
    assert_eq!(space.windows(), vec![9, 1, 8]);
    assert_eq!(space.active_window(), Some(8));
    space.add_tile_right_of(9, 7, false);
    assert_eq!(space.windows(), vec![9, 7, 1, 8]);
    space.add_tile_to_column(0, Some(1), 6, false);
    assert_eq!(space.windows(), vec![9, 6, 7, 1, 8]);
    space.add_column(Column::new(5), true);
    assert_eq!(space.windows(), vec![9, 6, 7, 1, 8, 5]);
    assert_eq!(space.active_window(), Some(5));
}

#[test]
fn removing_windows() {
    let mut space = space_of(&[1, 2, 3]);
    assert_eq!(space.remove_window(9), None);
    assert_eq!(space.remove_tile(2), 2);
    assert_eq!(space.windows(), vec![1, 3]);
    let active = space.active_window();
    assert_eq!(space.remove_active_tile(), active);
    assert_eq!(space.windows().len(), 1);
    assert!(!space.activate_window(1));
}

#[test]
fn columns_hold_tiles() {
    let mut column = Column::new(4u32);
    assert_eq!(column.tiles(), &[4]);
    column.tiles_mut()[0] = 5;
    assert_eq!(column.tiles(), &[5]);
    assert!(!column.contains(&5u32));
    assert_eq!(column.into_tiles(), vec![5]);
}

#[test]
fn window_height_and_scroll_direction() {
    assert_eq!(WindowHeight::default(), WindowHeight::Auto);
    assert_ne!(WindowHeight::Fixed(3), WindowHeight::Auto);
    assert_ne!(ScrollDirection::Left, ScrollDirection::Right);
}

#[test]
fn untracked_commands_leave_the_space_unchanged() {
    let mut space = space_of(&[1, 2, 3]);
    space.focus_left();
    let before = space.windows();
    let focused = space.active_window();
    assert_eq!(space.active_tile(), focused);
    space.toggle_width(true);
    space.toggle_full_width();
    space.reset_window_height(Some(2));
    space.toggle_window_height(None, false);
    space.toggle_window_width(Some(1), true);
    space.toggle_fullscreen(2);
    space.center_column();
    space.center_window(None);
    space.center_visible_columns();
    space.expand_column_to_available_width();
    space.swap_window_in_direction(ScrollDirection::Left);
    space.toggle_column_tabbed_display();
    space.update_window(1);
    space.cancel_resize_for_window(1);
    space.interactive_resize_end(Some(1));
    space.view_offset_gesture_begin(true);
    space.dnd_scroll_gesture_begin();
    space.dnd_scroll_gesture_end();
    assert!(!space.interactive_resize_begin(1));
    assert!(!space.interactive_resize_update(1));
    assert!(!space.view_offset_gesture_end(None));
    assert!(!space.set_fullscreen(1, true));
    assert!(!space.start_open_animation(1));
    assert!(!space.is_fullscreen(1));
    assert!(!space.render_above_top_layer());
    assert!(space.remove_active_column().is_none());
    assert_eq!(space.windows(), before);
    assert_eq!(space.active_window(), focused);
}
