use tiri_layout::layout::container::{Layout, TabBarTab};
use tiri_layout::layout::tab_bar::{
    extra_area_tab_index, tab_bar_extra_height, tab_cells, tab_color_role, tab_has_separator, tab_separator_rect,
    tab_text_x_and_width, tab_text_y, tab_widths_px, TabCell, TabColorRole,
};

fn tab(focused: bool, urgent: bool) -> TabBarTab {
    TabBarTab { title: String::from("t"), is_focused: focused, is_urgent: urgent }
}

#[test]
fn tabbed_widths_share_remainder_from_the_left() {
    assert_eq!(tab_widths_px(Layout::Tabbed, 10, 3), vec![4, 3, 3]);
    assert_eq!(tab_widths_px(Layout::Tabbed, 12, 3), vec![4, 4, 4]);
    assert_eq!(tab_widths_px(Layout::Tabbed, 1, 1), vec![1]);
    assert_eq!(tab_widths_px(Layout::Tabbed, 101, 7).iter().sum::<i32>(), 101);
}

#[test]
fn tabbed_widths_are_at_least_one_pixel() {
    assert_eq!(tab_widths_px(Layout::Tabbed, 2, 3), vec![2, 2, 1]);
}

#[test]
fn stacked_rows_take_full_width() {
    assert_eq!(tab_widths_px(Layout::Stacked, 50, 2), vec![50, 50]);
}

#[test]
fn tabbed_cells_sit_side_by_side() {
    let cells = tab_cells(Layout::Tabbed, &vec![4, 3, 3], 10, 20);
    assert_eq!(
        cells,
        vec![
            TabCell { x: 0, y: 0, w: 4, h: 20 },
            TabCell { x: 4, y: 0, w: 3, h: 20 },
            TabCell { x: 7, y: 0, w: 3, h: 20 },
        ]
    );
}

#[test]
fn stacked_cells_are_rows() {
    let cells = tab_cells(Layout::Stacked, &vec![50, 50], 50, 20);
    assert_eq!(cells, vec![TabCell { x: 0, y: 0, w: 50, h: 20 }, TabCell { x: 0, y: 20, w: 50, h: 20 }]);
}

#[test]
fn title_is_placed_inside_padding() {
    let cell = TabCell { x: 4, y: 20, w: 30, h: 30 };
    assert_eq!(tab_text_x_and_width(cell, 5), (9, 20));
    assert_eq!(tab_text_x_and_width(cell, 20), (24, 1));
    assert_eq!(tab_text_y(cell, 5, 10), 30);
    assert_eq!(tab_text_y(cell, 5, 25), 25);
    assert_eq!(tab_text_y(cell, 5, 11), 29);
}

#[test]
fn separators_between_tabs_only() {
    assert!(tab_has_separator(2, 0, 3));
    assert!(tab_has_separator(2, 1, 3));
    assert!(!tab_has_separator(2, 2, 3));
    assert!(!tab_has_separator(0, 0, 3));
    assert_eq!(
        tab_separator_rect(Layout::Tabbed, TabCell { x: 4, y: 0, w: 3, h: 20 }, 1),
        TabCell { x: 6, y: 0, w: 1, h: 20 }
    );
    assert_eq!(
        tab_separator_rect(Layout::Stacked, TabCell { x: 0, y: 20, w: 50, h: 20 }, 2),
        TabCell { x: 0, y: 38, w: 50, h: 2 }
    );
}

#[test]
fn extra_height_below_rows() {
    assert_eq!(tab_bar_extra_height(Layout::Tabbed, 30, 20, 3), 10);
    assert_eq!(tab_bar_extra_height(Layout::Stacked, 30, 20, 3), -30);
    assert_eq!(tab_bar_extra_height(Layout::Stacked, 5, i32::MAX, 3), 5 - i32::MAX);
}

#[test]
fn colour_roles() {
    assert_eq!(tab_color_role(&tab(true, true), true), TabColorRole::Urgent);
    assert_eq!(tab_color_role(&tab(true, false), true), TabColorRole::Active);
    assert_eq!(tab_color_role(&tab(true, false), false), TabColorRole::Inactive);
    assert_eq!(tab_color_role(&tab(false, false), true), TabColorRole::Inactive);
}

#[test]
fn extra_area_uses_focused_tab() {
    assert_eq!(extra_area_tab_index(&[tab(false, false), tab(true, false), tab(true, false)]), 1);
    assert_eq!(extra_area_tab_index(&[tab(false, false), tab(false, true)]), 0);
}

#[test]
fn tab_cells_follow_one_another() {
    let widths = tab_widths_px(Layout::Tabbed, 10, 3);
    let cells = tab_cells(Layout::Tabbed, &widths, 10, 20);
    for pair in cells.windows(2) {
        assert_eq!(pair[1].x, pair[0].x + pair[0].w);
        assert_eq!(pair[1].y, pair[0].y);
    }
    assert_eq!(cells[2].x + cells[2].w, 10);
    let rows = tab_cells(Layout::Stacked, &tab_widths_px(Layout::Stacked, 10, 3), 10, 20);
    for pair in rows.windows(2) {
        assert_eq!(pair[1].y, pair[0].y + pair[0].h);
        assert_eq!(pair[1].x, pair[0].x);
    }
    assert_eq!(rows[2].y, 40);
}
