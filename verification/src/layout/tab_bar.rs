//! Pixel layout of a tab bar: how wide each tab is, where each tab and its title go, where
//! separators are drawn, and which colours a tab takes.
use vstd::prelude::*;

use super::container::{Layout, TabBarTab};

verus! {

/// Which colour pair of the tab bar configuration a tab is drawn with.
#[derive(Debug, Clone, Copy, PartialEq, Eq, Structural)]
pub enum TabColorRole {
    Urgent,
    Active,
    Inactive,
}

/// Urgent tabs take the urgent colours; the focused tab of the active workspace the active
/// colours; every other tab the inactive colours.
pub fn tab_color_role(tab: &TabBarTab, is_active_workspace: bool) -> (r: TabColorRole)
    ensures
        r == if tab.is_urgent {
            TabColorRole::Urgent
        } else if tab.is_focused && is_active_workspace {
            TabColorRole::Active
        } else {
            TabColorRole::Inactive
        },
{
    if tab.is_urgent {
        TabColorRole::Urgent
    } else if tab.is_focused && is_active_workspace {
        TabColorRole::Active
    } else {
        TabColorRole::Inactive
    }
}

/// Width of tab `i` of `count` tabs in a bar `width` pixels wide: tabbed bars share the width
/// evenly, the first tabs taking one pixel of the remainder each, and no tab is narrower
/// than one pixel; stacked bars give every row the full width.
pub open spec fn tab_width(layout: Layout, width: int, count: int, i: int) -> int {
    if layout == Layout::Tabbed {
        let base = width / count;
        let remainder = width - base * count;
        (if base < 1 {
            1
        } else {
            base
        }) + if i < remainder {
            1int
        } else {
            0
        }
    } else {
        width
    }
}

pub fn tab_widths_px(layout: Layout, width_px: i32, tab_count: usize) -> (r: Vec<i32>)
    requires
        0 < tab_count <= i32::MAX,
        width_px >= 1,
    ensures
        r@.len() == tab_count,
        forall|i: int| 0 <= i < tab_count ==> #[trigger] r@[i] == tab_width(layout, width_px as int, tab_count as int, i),
{
    let mut widths: Vec<i32> = Vec::new();
    if layout == Layout::Tabbed {
        let count = tab_count as i32;
        let base = width_px / count;
        proof {
            assert(0 <= base * count <= width_px && width_px - base * count < count && base <= base * count)
                by (nonlinear_arith)
                requires
                    count >= 1,
                    width_px >= 1,
                    base == width_px / count,
            {
            }
        }
        let remainder = width_px - base * count;
        let w = if base < 1 {
            1
        } else {
            base
        };
        let mut i: usize = 0;
        while i < tab_count
            invariant
                i <= tab_count <= i32::MAX,
                widths@.len() == i,
                count == tab_count,
                base == width_px / count,
                remainder == width_px - base * count,
                0 <= remainder < count,
                w == (if base < 1 {
                    1
                } else {
                    base
                }),
                1 <= w <= width_px,
                remainder > 0 ==> w < i32::MAX,
                layout == Layout::Tabbed,
                forall|k: int| 0 <= k < i ==> #[trigger] widths@[k] == tab_width(layout, width_px as int, tab_count as int, k),
            decreases tab_count - i,
        {
            let extra = if (i as i32) < remainder {
                1
            } else {
                0
            };
            widths.push(w + extra);
            i = i + 1;
        }
    } else {
        let mut i: usize = 0;
        while i < tab_count
            invariant
                i <= tab_count,
                widths@.len() == i,
                layout != Layout::Tabbed,
                forall|k: int| 0 <= k < i ==> #[trigger] widths@[k] == tab_width(layout, width_px as int, tab_count as int, k),
            decreases tab_count - i,
        {
            widths.push(width_px);
            i = i + 1;
        }
    }
    widths
}

/// A rectangle in pixels.
#[derive(Debug, Clone, Copy, PartialEq, Eq, Structural)]
pub struct TabCell {
    pub x: i32,
    pub y: i32,
    pub w: i32,
    pub h: i32,
}

/// Sum of the first `n` widths.
pub open spec fn width_before(widths: Seq<i32>, n: int) -> int
    decreases n,
{
    if n <= 0 || n > widths.len() {
        0
    } else {
        width_before(widths, n - 1) + widths[n - 1]
    }
}

/// Cell of tab `i`: tabbed bars put the tabs side by side on one row, stacked bars put one
/// full-width row per tab.
pub open spec fn tab_cell(layout: Layout, widths: Seq<i32>, width_px: i32, row_height_px: i32, i: int) -> TabCell {
    if layout == Layout::Tabbed {
        TabCell { x: width_before(widths, i) as i32, y: 0, w: widths[i], h: row_height_px }
    } else {
        TabCell { x: 0, y: (i * row_height_px) as i32, w: width_px, h: row_height_px }
    }
}

proof fn lemma_width_before_nonneg(widths: Seq<i32>, n: int)
    requires
        forall|k: int| 0 <= k < widths.len() ==> #[trigger] widths[k] >= 0,
    ensures
        0 <= width_before(widths, n),
    decreases n,
{
    if 0 < n <= widths.len() {
        lemma_width_before_nonneg(widths, n - 1);
    }
}

proof fn lemma_width_before_bound(widths: Seq<i32>, i: int, n: int)
    requires
        0 <= i <= n <= widths.len(),
        forall|k: int| 0 <= k < widths.len() ==> #[trigger] widths[k] >= 0,
    ensures
        0 <= width_before(widths, i) <= width_before(widths, n),
    decreases n - i,
{
    lemma_width_before_nonneg(widths, i);
    if i < n {
        lemma_width_before_bound(widths, i, n - 1);
    }
}

pub fn tab_cells(layout: Layout, widths: &Vec<i32>, width_px: i32, row_height_px: i32) -> (r: Vec<TabCell>)
    requires
        row_height_px >= 1,
        widths@.len() * row_height_px <= i32::MAX,
        forall|k: int| 0 <= k < widths@.len() ==> #[trigger] widths@[k] >= 0,
        width_before(widths@, widths@.len() as int) <= i32::MAX,
    ensures
        r@.len() == widths@.len(),
        forall|i: int|
            0 <= i < widths@.len() ==> #[trigger] r@[i] == tab_cell(layout, widths@, width_px, row_height_px, i),
{
    let mut cells: Vec<TabCell> = Vec::new();
    let mut cursor_x: i32 = 0;
    let mut i: usize = 0;
    let n = widths.len();
    while i < n
        invariant
            i <= n == widths@.len(),
            cells@.len() == i,
            cursor_x == width_before(widths@, i as int),
            row_height_px >= 1,
            widths@.len() * row_height_px <= i32::MAX,
            forall|k: int| 0 <= k < widths@.len() ==> #[trigger] widths@[k] >= 0,
            width_before(widths@, widths@.len() as int) <= i32::MAX,
            forall|k: int|
                0 <= k < i ==> #[trigger] cells@[k] == tab_cell(layout, widths@, width_px, row_height_px, k),
        decreases n - i,
    {
        proof {
            lemma_width_before_bound(widths@, i + 1, n as int);
            assert(i <= i * row_height_px <= n * row_height_px) by (nonlinear_arith)
                requires
                    i <= n,
                    row_height_px >= 1,
            {
            }
        }
        let width = widths[i];
        let cell = if layout == Layout::Tabbed {
            TabCell { x: cursor_x, y: 0, w: width, h: row_height_px }
        } else {
            TabCell { x: 0, y: (i as i32) * row_height_px, w: width_px, h: row_height_px }
        };
        cells.push(cell);
        cursor_x = cursor_x + width;
        i = i + 1;
    }
    cells
}

/// Where a tab's title starts and how wide it may be: inside the horizontal padding, and at
/// least one pixel wide.
pub fn tab_text_x_and_width(cell: TabCell, padding_x_px: i32) -> (r: (i32, i32))
    requires
        0 <= padding_x_px <= i32::MAX / 2,
        cell.x + padding_x_px <= i32::MAX,
        cell.w - 2 * padding_x_px >= i32::MIN,
    ensures
        r.0 == cell.x + padding_x_px,
        r.1 == if cell.w - 2 * padding_x_px < 1 {
            1
        } else {
            cell.w - 2 * padding_x_px
        },
{
    let text_width = cell.w - padding_x_px * 2;
    (cell.x + padding_x_px, if text_width < 1 {
        1
    } else {
        text_width
    })
}

/// Top of a tab's title of height `text_height`: centred in the vertically padded area (at
/// least one pixel high), never above that area.
pub fn tab_text_y(cell: TabCell, padding_y_px: i32, text_height: i32) -> (r: i32)
    requires
        0 <= padding_y_px <= i32::MAX / 2,
        cell.h >= 0,
        text_height >= 0,
        cell.y + padding_y_px + cell.h <= i32::MAX,
        cell.y + padding_y_px >= i32::MIN,
    ensures
        ({
            let area = if cell.h - 2 * padding_y_px < 1 {
                1
            } else {
                cell.h - 2 * padding_y_px
            };
            let d = area - text_height;
            r == cell.y + padding_y_px + if d > 0 {
                d / 2
            } else {
                0
            }
        }),
{
    let t = cell.h - padding_y_px * 2;
    let area = if t < 1 {
        1
    } else {
        t
    };
    let d = area - text_height;
    let offset = if d > 0 {
        d / 2
    } else {
        0
    };
    cell.y + padding_y_px + offset
}

/// Whether a separator follows tab `idx`: separators have a width and sit between tabs.
pub fn tab_has_separator(separator_width_px: i32, idx: usize, tab_count: usize) -> (r: bool)
    ensures
        r == (separator_width_px > 0 && idx + 1 < tab_count),
{
    separator_width_px > 0 && idx < tab_count && tab_count - idx > 1
}

/// The separator after a tab: along its right edge in tabbed bars, along its bottom edge in
/// stacked bars.
pub fn tab_separator_rect(layout: Layout, cell: TabCell, separator_width_px: i32) -> (r: TabCell)
    requires
        i32::MIN <= cell.x + cell.w - separator_width_px <= i32::MAX,
        i32::MIN <= cell.y + cell.h - separator_width_px <= i32::MAX,
        i32::MIN <= cell.x + cell.w <= i32::MAX,
        i32::MIN <= cell.y + cell.h <= i32::MAX,
    ensures
        r == if layout == Layout::Tabbed {
            TabCell { x: (cell.x + cell.w - separator_width_px) as i32, y: cell.y, w: separator_width_px, h: cell.h }
        } else {
            TabCell { x: cell.x, y: (cell.y + cell.h - separator_width_px) as i32, w: cell.w, h: separator_width_px }
        },
{
    if layout == Layout::Tabbed {
        TabCell { x: cell.x + cell.w - separator_width_px, y: cell.y, w: separator_width_px, h: cell.h }
    } else {
        TabCell { x: cell.x, y: cell.y + cell.h - separator_width_px, w: cell.w, h: separator_width_px }
    }
}

/// Height left below the rows of the bar (one row when tabbed, one per tab when stacked);
/// the product of row height and row count saturates at `i32::MAX`.
pub fn tab_bar_extra_height(layout: Layout, height_px: i32, row_height_px: i32, tab_count: usize) -> (r: i32)
    requires
        height_px >= 1,
        row_height_px >= 1,
        tab_count <= i32::MAX,
    ensures
        ({
            let rows = if layout == Layout::Tabbed {
                1int
            } else {
                tab_count as int
            };
            let used = if row_height_px * rows > i32::MAX {
                i32::MAX as int
            } else {
                row_height_px * rows
            };
            r == height_px - used
        }),
{
    let rows: i64 = if layout == Layout::Tabbed {
        1
    } else {
        tab_count as i64
    };
    let row: i64 = row_height_px as i64;
    proof {
        assert(row * rows <= 0x7fff_ffff * 0x7fff_ffff) by (nonlinear_arith)
            requires
                1 <= row <= 0x7fff_ffff,
                0 <= rows <= 0x7fff_ffff,
        {
        }
        assert(row * rows >= 0) by (nonlinear_arith)
            requires
                1 <= row,
                0 <= rows,
        {
        }
    }
    let product = row * rows;
    let used: i32 = if product > 0x7fff_ffff {
        0x7fff_ffff
    } else {
        product as i32
    };
    height_px - used
}

/// The tab whose colours fill the area below the rows: the first focused tab, else the first.
pub fn extra_area_tab_index(tabs: &[TabBarTab]) -> (r: usize)
    ensures
        (exists|i: int| 0 <= i < tabs@.len() && #[trigger] tabs@[i].is_focused) ==> r < tabs@.len()
            && tabs@[r as int].is_focused && forall|j: int| 0 <= j < r ==> !(#[trigger] tabs@[j].is_focused),
        !(exists|i: int| 0 <= i < tabs@.len() && #[trigger] tabs@[i].is_focused) ==> r == 0,
{
    let mut i: usize = 0;
    while i < tabs.len()
        invariant
            i <= tabs@.len(),
            forall|j: int| 0 <= j < i ==> !(#[trigger] tabs@[j].is_focused),
        decreases tabs@.len() - i,
    {
        if tabs[i].is_focused {
            return i;
        }
        i = i + 1;
    }
    0
}

/// Sum of the widths of the first `n` tabs.
pub open spec fn tab_widths_total(layout: Layout, width: int, count: int, n: int) -> int
    decreases n,
{
    if n <= 0 {
        0
    } else {
        tab_widths_total(layout, width, count, n - 1) + tab_width(layout, width, count, n - 1)
    }
}

/// Tab cells follow one another without gap or overlap: in a tabbed bar each cell starts
/// where the previous one ends, on the same row; in a stacked bar each row starts below the
/// previous one.
pub proof fn law_tab_cells_adjacent(layout: Layout, widths: Seq<i32>, width_px: i32, row_height_px: i32, i: int)
    requires
        row_height_px >= 1,
        widths.len() * row_height_px <= i32::MAX,
        forall|k: int| 0 <= k < widths.len() ==> #[trigger] widths[k] >= 0,
        width_before(widths, widths.len() as int) <= i32::MAX,
        0 <= i,
        i + 1 < widths.len(),
    ensures
        ({
            let a = tab_cell(layout, widths, width_px, row_height_px, i);
            let b = tab_cell(layout, widths, width_px, row_height_px, i + 1);
            if layout == Layout::Tabbed {
                b.x == a.x + a.w && b.y == a.y
            } else {
                b.y == a.y + a.h && b.x == a.x
            }
        }),
{
    lemma_width_before_bound(widths, i, widths.len() as int);
    lemma_width_before_bound(widths, i + 1, widths.len() as int);
    assert(0 <= i * row_height_px && (i + 1) * row_height_px <= widths.len() * row_height_px
        && (i + 1) * row_height_px == i * row_height_px + row_height_px) by (nonlinear_arith)
        requires
            0 <= i,
            i + 1 < widths.len(),
            row_height_px >= 1,
    {
    }
}

/// In a tabbed bar at least as wide as it has tabs, the tabs exactly fill the bar.
pub proof fn law_tabbed_widths_fill_bar(width: int, count: int)
    requires
        1 <= count <= width,
    ensures
        tab_widths_total(Layout::Tabbed, width, count, count) == width,
{
    let base = width / count;
    let rem = width - base * count;
    assert(base >= 1 && 0 <= rem < count) by (nonlinear_arith)
        requires
            1 <= count <= width,
            base == width / count,
            rem == width - base * count,
    {
    }
    lemma_tabbed_prefix(width, count, count);
}

proof fn lemma_tabbed_prefix(width: int, count: int, n: int)
    requires
        1 <= count <= width,
        0 <= n <= count,
        width / count >= 1,
    ensures
        ({
            let base = width / count;
            let rem = width - base * count;
            tab_widths_total(Layout::Tabbed, width, count, n) == base * n + if n < rem {
                n
            } else {
                rem
            }
        }),
    decreases n,
{
    let base = width / count;
    let rem = width - base * count;
    assert(rem >= 0 && base * 0 == 0) by (nonlinear_arith)
        requires
            count >= 1,
            base == width / count,
            rem == width - base * count,
    {
    }
    if n > 0 {
        lemma_tabbed_prefix(width, count, n - 1);
        assert(base * (n - 1) + base == base * n) by (nonlinear_arith);
        assert(tab_width(Layout::Tabbed, width, count, n - 1) == base + if n - 1 < rem {
            1int
        } else {
            0
        });
        assert(tab_widths_total(Layout::Tabbed, width, count, n) == tab_widths_total(
            Layout::Tabbed,
            width,
            count,
            n - 1,
        ) + tab_width(Layout::Tabbed, width, count, n - 1));
    }
}

} // verus!
