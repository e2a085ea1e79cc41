//! i3-style tiling space: a container tree driven by the column-oriented commands of the
//! scrolling layout (focus and move by direction, columns as root children).
use vstd::prelude::*;

use super::container::behavior::{
    state_wf, has_room, insert_window_spec, remove_window_spec, focused_window_spec,
    focus_in_direction_spec, move_in_direction_spec, move_would_panic, split_focused_spec,
    set_focused_layout_spec, focus_root_child_spec, root_children_len_spec, focused_root_index_spec,
    focus_leaf_in_root_child_spec, focus_top_spec, focus_bottom_spec, move_root_child_spec,
    focus_window_by_id_spec, insert_at_root_spec, insert_leaf_after_spec,
};
use super::container::model::{TreeState, Tree, root_leaves, root_find, root_size};
use super::container::{ContainerTree, Direction, Layout};

verus! {

/// A column of tiles.
#[derive(Debug)]
pub struct Column<T> {
    tiles: Vec<T>,
}

impl<T> Column<T> {
    pub closed spec fn view(&self) -> Seq<T> {
        self.tiles@
    }

    /// A column holding one tile.
    pub fn new(tile: T) -> (r: Self)
        ensures
            r@ == seq![tile],
    {
        let tiles = vec![tile];
        assert(tiles@ =~= seq![tile]);
        Self { tiles }
    }

    pub fn tiles(&self) -> (r: &[T])
        ensures
            r@ == self@,
    {
        self.tiles.as_slice()
    }

    pub fn tiles_mut(&mut self) -> (r: &mut [T])
        ensures
            r@ == old(self)@,
            final(self)@ == final(r)@,
    {
        self.tiles.as_mut_slice()
    }

    /// Whether the column holds the window; columns do not track their windows, so this is
    /// always `false`.
    pub fn contains<W>(&self, _window: &W) -> (r: bool)
        ensures
            !r,
    {
        false
    }

    /// The tiles, consuming the column.
    pub fn into_tiles(self) -> (r: Vec<T>)
        ensures
            r@ == self@,
    {
        self.tiles
    }
}

/// Height of a window.
#[derive(Debug, Clone, Copy, PartialEq, Eq, Structural)]
pub enum WindowHeight {
    Auto,
    Fixed(i32),
}

impl Default for WindowHeight {
    fn default() -> (r: Self)
        ensures
            r == WindowHeight::Auto,
    {
        WindowHeight::Auto
    }
}

/// Scroll direction.
#[derive(Debug, Clone, Copy, PartialEq, Eq, Structural)]
pub enum ScrollDirection {
    Left,
    Right,
    Up,
    Down,
}

/// Tiling space built on a container tree.
#[derive(Debug)]
pub struct ScrollingSpace {
    tree: ContainerTree,
}

/// The state after `count` windows are appended as root children, the last one focused
/// when `activate` is set.
pub open spec fn append_all(s: TreeState, ids: Seq<u64>, count: int, activate: bool) -> TreeState
    decreases count,
{
    if count <= 0 {
        s
    } else {
        let prev = append_all(s, ids, count - 1, activate);
        let focus = activate && count - 1 == ids.len() - 1;
        insert_at_root_spec(prev, root_children_len_spec(prev) as usize, Tree::Leaf(ids[count - 1]), focus)
    }
}

/// The state after focusing `window` (when given): the state a command on "that window"
/// starts from.
pub open spec fn with_focus(s: TreeState, window: Option<u64>) -> TreeState {
    match window {
        Some(id) => focus_window_by_id_spec(s, id).0,
        None => s,
    }
}

/// Move in direction `d`, or split the focused window vertically when nothing moved.
pub open spec fn consume_or_expel_spec(s: TreeState, window: Option<u64>, d: Direction) -> TreeState {
    let s1 = with_focus(s, window);
    let (s2, moved) = move_in_direction_spec(s1, d);
    if moved {
        s2
    } else {
        split_focused_spec(s2, Layout::SplitV).0
    }
}

impl ScrollingSpace {
    pub closed spec fn view(&self) -> TreeState {
        self.tree@
    }

    pub open spec fn wf(&self) -> bool {
        state_wf(self@)
    }

    pub fn new() -> (r: Self)
        ensures
            r@ == (TreeState { root: None, focus: Seq::empty(), stack: Seq::empty(), pending: None }),
            r.wf(),
    {
        Self { tree: ContainerTree::new() }
    }

    /// The container tree.
    pub fn tree(&self) -> (r: &ContainerTree)
        ensures
            r@ == self@,
    {
        &self.tree
    }

    /// Window ids, depth-first.
    pub fn windows(&self) -> (r: Vec<u64>)
        ensures
            r@ == root_leaves(self@.root),
    {
        self.tree.all_windows()
    }

    pub fn is_empty(&self) -> (r: bool)
        ensures
            r == (self@.root is None),
    {
        self.tree.is_empty()
    }

    pub fn active_window(&self) -> (r: Option<u64>)
        ensures
            r == focused_window_spec(self@),
    {
        self.tree.focused_window()
    }

    /// The tile of the focused window, named by that window.
    pub fn active_tile(&self) -> (r: Option<u64>)
        ensures
            r == focused_window_spec(self@),
    {
        self.tree.focused_window()
    }

    pub fn add_window(&mut self, id: u64)
        requires
            old(self).wf(),
            has_room(old(self)@, 2),
        ensures
            final(self)@ == insert_window_spec(old(self)@, id),
            final(self).wf(),
    {
        self.tree.insert_window(id);
    }

    pub fn remove_window(&mut self, id: u64) -> (r: Option<u64>)
        requires
            old(self).wf(),
        ensures
            (final(self)@, r) == remove_window_spec(old(self)@, id),
            final(self).wf(),
    {
        self.tree.remove_window(id)
    }

    /// Removes a window that the space holds.
    pub fn remove_tile(&mut self, id: u64) -> (r: u64)
        requires
            old(self).wf(),
            root_leaves(old(self)@.root).contains(id),
        ensures
            final(self)@ == remove_window_spec(old(self)@, id).0,
            r == id,
            final(self).wf(),
    {
        proof {
            super::container::laws::law_remove_window_leaves(self@, id);
        }
        let removed = self.tree.remove_window(id);
        match removed {
            Some(x) => x,
            None => {
                assert(false);
                id
            },
        }
    }

    /// Removes the focused window, if any.
    pub fn remove_active_tile(&mut self) -> (r: Option<u64>)
        requires
            old(self).wf(),
        ensures
            match focused_window_spec(old(self)@) {
                Some(id) => r == Some(id) && final(self)@ == remove_window_spec(old(self)@, id).0,
                None => r is None && final(self)@ == old(self)@,
            },
            final(self).wf(),
    {
        let id = match self.tree.focused_window() {
            Some(id) => id,
            None => return None,
        };
        proof {
            let t = self@.root.unwrap();
            super::container::order_lemmas::lemma_leaves_around(t, self@.focus, Tree::Leaf(id));
            assert(super::container::model::leaves(Tree::Leaf(id)) =~= seq![id]);
            assert(root_leaves(self@.root)[super::container::model::leaves_before(t, self@.focus).len() as int]
                == id);
        }
        Some(self.remove_tile(id))
    }

    /// Whether the space holds the window; positions are not tracked as columns and rows,
    /// so a found window is reported at `(0, 0)`.
    pub fn find_window(&self, id: u64) -> (r: Option<(usize, usize)>)
        ensures
            r == (if root_find(self@.root, id) is Some {
                Some((0usize, 0usize))
            } else {
                None
            }),
    {
        match self.tree.find_window(id) {
            Some(_) => Some((0, 0)),
            None => None,
        }
    }

    /// Activating a window by id is not supported; nothing changes.
    pub fn activate_window(&mut self, _id: u64) -> (r: bool)
        ensures
            !r,
            final(self)@ == old(self)@,
    {
        false
    }

    pub fn focus_left(&mut self) -> (r: bool)
        requires
            old(self).wf(),
        ensures
            (final(self)@, r) == focus_in_direction_spec(old(self)@, Direction::Left),
            final(self).wf(),
    {
        self.tree.focus_in_direction(Direction::Left)
    }

    pub fn focus_right(&mut self) -> (r: bool)
        requires
            old(self).wf(),
        ensures
            (final(self)@, r) == focus_in_direction_spec(old(self)@, Direction::Right),
            final(self).wf(),
    {
        self.tree.focus_in_direction(Direction::Right)
    }

    pub fn focus_down(&mut self) -> (r: bool)
        requires
            old(self).wf(),
        ensures
            (final(self)@, r) == focus_in_direction_spec(old(self)@, Direction::Down),
            final(self).wf(),
    {
        self.tree.focus_in_direction(Direction::Down)
    }

    pub fn focus_up(&mut self) -> (r: bool)
        requires
            old(self).wf(),
        ensures
            (final(self)@, r) == focus_in_direction_spec(old(self)@, Direction::Up),
            final(self).wf(),
    {
        self.tree.focus_in_direction(Direction::Up)
    }

    pub fn move_left(&mut self) -> (r: bool)
        requires
            old(self).wf(),
            !move_would_panic(old(self)@, Direction::Left),
        ensures
            (final(self)@, r) == move_in_direction_spec(old(self)@, Direction::Left),
            final(self).wf(),
    {
        self.tree.move_in_direction(Direction::Left)
    }

    pub fn move_right(&mut self) -> (r: bool)
        requires
            old(self).wf(),
            !move_would_panic(old(self)@, Direction::Right),
        ensures
            (final(self)@, r) == move_in_direction_spec(old(self)@, Direction::Right),
            final(self).wf(),
    {
        self.tree.move_in_direction(Direction::Right)
    }

    pub fn move_down(&mut self) -> (r: bool)
        requires
            old(self).wf(),
            !move_would_panic(old(self)@, Direction::Down),
        ensures
            (final(self)@, r) == move_in_direction_spec(old(self)@, Direction::Down),
            final(self).wf(),
    {
        self.tree.move_in_direction(Direction::Down)
    }

    pub fn move_up(&mut self) -> (r: bool)
        requires
            old(self).wf(),
            !move_would_panic(old(self)@, Direction::Up),
        ensures
            (final(self)@, r) == move_in_direction_spec(old(self)@, Direction::Up),
            final(self).wf(),
    {
        self.tree.move_in_direction(Direction::Up)
    }

    /// Wrap the focused window in a vertical split.
    pub fn consume_into_column(&mut self)
        requires
            old(self).wf(),
            has_room(old(self)@, 1),
        ensures
            final(self)@ == split_focused_spec(old(self)@, Layout::SplitV).0,
            final(self).wf(),
    {
        self.tree.split_focused(Layout::SplitV);
    }

    /// Wrap the focused window in a horizontal split.
    pub fn expel_from_column(&mut self)
        requires
            old(self).wf(),
            has_room(old(self)@, 1),
        ensures
            final(self)@ == split_focused_spec(old(self)@, Layout::SplitH).0,
            final(self).wf(),
    {
        self.tree.split_focused(Layout::SplitH);
    }

    /// Split the focused window horizontally.
    pub fn split_horizontal(&mut self)
        requires
            old(self).wf(),
            has_room(old(self)@, 1),
        ensures
            final(self)@ == split_focused_spec(old(self)@, Layout::SplitH).0,
            final(self).wf(),
    {
        self.tree.split_focused(Layout::SplitH);
    }

    /// Split the focused window vertically.
    pub fn split_vertical(&mut self)
        requires
            old(self).wf(),
            has_room(old(self)@, 1),
        ensures
            final(self)@ == split_focused_spec(old(self)@, Layout::SplitV).0,
            final(self).wf(),
    {
        self.tree.split_focused(Layout::SplitV);
    }

    /// Set the layout of the focused container.
    pub fn set_layout_mode(&mut self, layout: Layout)
        requires
            old(self).wf(),
            has_room(old(self)@, 1),
        ensures
            final(self)@ == set_focused_layout_spec(old(self)@, layout).0,
            final(self).wf(),
    {
        self.tree.set_focused_layout(layout);
    }

    pub fn focus_column_first(&mut self)
        requires
            old(self).wf(),
        ensures
            final(self)@ == focus_root_child_spec(old(self)@, 0).0,
            final(self).wf(),
    {
        self.tree.focus_root_child(0);
    }

    pub fn focus_column_last(&mut self)
        requires
            old(self).wf(),
        ensures
            final(self)@ == if root_children_len_spec(old(self)@) > 0 {
                focus_root_child_spec(old(self)@, (root_children_len_spec(old(self)@) - 1) as usize).0
            } else {
                old(self)@
            },
            final(self).wf(),
    {
        let len = self.tree.root_children_len();
        if len > 0 {
            self.tree.focus_root_child(len - 1);
        }
    }

    /// Focus column `idx`, counted from 1.
    pub fn focus_column(&mut self, idx: usize)
        requires
            old(self).wf(),
        ensures
            final(self)@ == if idx == 0 {
                old(self)@
            } else {
                focus_root_child_spec(old(self)@, (idx - 1) as usize).0
            },
            final(self).wf(),
    {
        if idx == 0 {
            return;
        }
        self.tree.focus_root_child(idx - 1);
    }

    /// Focus window `index` of the focused column, counted from 1.
    pub fn focus_window_in_column(&mut self, index: u8)
        requires
            old(self).wf(),
        ensures
            final(self)@ == if index == 0 {
                old(self)@
            } else {
                match focused_root_index_spec(old(self)@) {
                    Some(c) => focus_leaf_in_root_child_spec(old(self)@, c, index as usize).0,
                    None => old(self)@,
                }
            },
            final(self).wf(),
    {
        if index == 0 {
            return;
        }
        let column_idx = match self.tree.focused_root_index() {
            Some(idx) => idx,
            None => return,
        };
        self.tree.focus_leaf_in_root_child(column_idx, index as usize);
    }

    pub fn focus_down_or_left(&mut self)
        requires
            old(self).wf(),
        ensures
            final(self)@ == if focus_in_direction_spec(old(self)@, Direction::Down).1 {
                focus_in_direction_spec(old(self)@, Direction::Down).0
            } else {
                focus_in_direction_spec(focus_in_direction_spec(old(self)@, Direction::Down).0, Direction::Left).0
            },
            final(self).wf(),
    {
        if !self.tree.focus_in_direction(Direction::Down) {
            self.tree.focus_in_direction(Direction::Left);
        }
    }

    pub fn focus_down_or_right(&mut self)
        requires
            old(self).wf(),
        ensures
            final(self)@ == if focus_in_direction_spec(old(self)@, Direction::Down).1 {
                focus_in_direction_spec(old(self)@, Direction::Down).0
            } else {
                focus_in_direction_spec(focus_in_direction_spec(old(self)@, Direction::Down).0, Direction::Right).0
            },
            final(self).wf(),
    {
        if !self.tree.focus_in_direction(Direction::Down) {
            self.tree.focus_in_direction(Direction::Right);
        }
    }

    pub fn focus_up_or_left(&mut self)
        requires
            old(self).wf(),
        ensures
            final(self)@ == if focus_in_direction_spec(old(self)@, Direction::Up).1 {
                focus_in_direction_spec(old(self)@, Direction::Up).0
            } else {
                focus_in_direction_spec(focus_in_direction_spec(old(self)@, Direction::Up).0, Direction::Left).0
            },
            final(self).wf(),
    {
        if !self.tree.focus_in_direction(Direction::Up) {
            self.tree.focus_in_direction(Direction::Left);
        }
    }

    pub fn focus_up_or_right(&mut self)
        requires
            old(self).wf(),
        ensures
            final(self)@ == if focus_in_direction_spec(old(self)@, Direction::Up).1 {
                focus_in_direction_spec(old(self)@, Direction::Up).0
            } else {
                focus_in_direction_spec(focus_in_direction_spec(old(self)@, Direction::Up).0, Direction::Right).0
            },
            final(self).wf(),
    {
        if !self.tree.focus_in_direction(Direction::Up) {
            self.tree.focus_in_direction(Direction::Right);
        }
    }

    pub fn focus_top(&mut self)
        requires
            old(self).wf(),
        ensures
            final(self)@ == focus_top_spec(old(self)@).0,
            final(self).wf(),
    {
        self.tree.focus_top_in_current_column();
    }

    pub fn focus_bottom(&mut self)
        requires
            old(self).wf(),
        ensures
            final(self)@ == focus_bottom_spec(old(self)@).0,
            final(self).wf(),
    {
        self.tree.focus_bottom_in_current_column();
    }

    pub fn move_column_to_first(&mut self)
        requires
            old(self).wf(),
        ensures
            final(self)@ == match focused_root_index_spec(old(self)@) {
                Some(i) => move_root_child_spec(old(self)@, i, 0).0,
                None => old(self)@,
            },
            final(self).wf(),
    {
        if let Some(idx) = self.tree.focused_root_index() {
            self.tree.move_root_child(idx, 0);
        }
    }

    pub fn move_column_to_last(&mut self)
        requires
            old(self).wf(),
        ensures
            final(self)@ == if root_children_len_spec(old(self)@) == 0 {
                old(self)@
            } else {
                match focused_root_index_spec(old(self)@) {
                    Some(i) => move_root_child_spec(
                        old(self)@,
                        i,
                        (root_children_len_spec(old(self)@) - 1) as usize,
                    ).0,
                    None => old(self)@,
                }
            },
            final(self).wf(),
    {
        let len = self.tree.root_children_len();
        if len == 0 {
            return;
        }
        if let Some(idx) = self.tree.focused_root_index() {
            self.tree.move_root_child(idx, len - 1);
        }
    }

    /// Move the focused column to position `idx`, counted from 1.
    pub fn move_column_to_index(&mut self, idx: usize)
        requires
            old(self).wf(),
        ensures
            final(self)@ == if idx == 0 {
                old(self)@
            } else {
                match focused_root_index_spec(old(self)@) {
                    Some(cur) => if cur == idx - 1 || idx - 1 >= root_children_len_spec(old(self)@) {
                        old(self)@
                    } else {
                        move_root_child_spec(old(self)@, cur, (idx - 1) as usize).0
                    },
                    None => old(self)@,
                }
            },
            final(self).wf(),
    {
        if idx == 0 {
            return;
        }
        let target = idx - 1;
        if let Some(current) = self.tree.focused_root_index() {
            if current == target {
                return;
            }
            let len = self.tree.root_children_len();
            if target >= len {
                return;
            }
            self.tree.move_root_child(current, target);
        }
    }

    /// Move the window (focused first, when given) left, or split it vertically when it
    /// cannot move.
    pub fn consume_or_expel_window_left(&mut self, window: Option<u64>)
        requires
            old(self).wf(),
            has_room(old(self)@, 1),
            !move_would_panic(with_focus(old(self)@, window), Direction::Left),
        ensures
            final(self)@ == consume_or_expel_spec(old(self)@, window, Direction::Left),
            final(self).wf(),
    {
        self.consume_or_expel(window, Direction::Left);
    }

    /// Move the window (focused first, when given) right, or split it vertically when it
    /// cannot move.
    pub fn consume_or_expel_window_right(&mut self, window: Option<u64>)
        requires
            old(self).wf(),
            has_room(old(self)@, 1),
            !move_would_panic(with_focus(old(self)@, window), Direction::Right),
        ensures
            final(self)@ == consume_or_expel_spec(old(self)@, window, Direction::Right),
            final(self).wf(),
    {
        self.consume_or_expel(window, Direction::Right);
    }

    fn consume_or_expel(&mut self, window: Option<u64>, d: Direction)
        requires
            old(self).wf(),
            has_room(old(self)@, 1),
            !move_would_panic(with_focus(old(self)@, window), d),
        ensures
            final(self)@ == consume_or_expel_spec(old(self)@, window, d),
            final(self).wf(),
    {
        if let Some(id) = window {
            self.tree.focus_window_by_id(id);
        }
        let ghost s1 = self@;
        if !self.tree.move_in_direction(d) {
            assert(self@.root == s1.root);
            self.tree.split_focused(Layout::SplitV);
        }
    }

    /// Add a window as root child `col_idx`, or as the last one.
    pub fn add_tile(&mut self, col_idx: Option<usize>, id: u64, activate: bool)
        requires
            old(self).wf(),
            has_room(old(self)@, 2),
        ensures
            final(self)@ == match col_idx {
                Some(i) => insert_at_root_spec(old(self)@, i, Tree::Leaf(id), activate),
                None => insert_at_root_spec(
                    old(self)@,
                    root_children_len_spec(old(self)@) as usize,
                    Tree::Leaf(id),
                    activate,
                ),
            },
            final(self).wf(),
    {
        match col_idx {
            Some(index) => self.tree.insert_leaf_at(index, id, activate),
            None => self.tree.append_leaf(id, activate),
        }
    }

    /// Add a window right after `next_to`.
    pub fn add_tile_right_of(&mut self, next_to: u64, id: u64, activate: bool)
        requires
            old(self).wf(),
            has_room(old(self)@, 2),
        ensures
            final(self)@ == insert_leaf_after_spec(old(self)@, next_to, id, activate).0,
            final(self).wf(),
    {
        self.tree.insert_leaf_after(next_to, id, activate);
    }

    /// Add a window as root child `tile_idx`, or `col_idx` when no tile index is given.
    pub fn add_tile_to_column(&mut self, col_idx: usize, tile_idx: Option<usize>, id: u64, activate: bool)
        requires
            old(self).wf(),
            has_room(old(self)@, 2),
        ensures
            final(self)@ == insert_at_root_spec(
                old(self)@,
                match tile_idx {
                    Some(t) => t,
                    None => col_idx,
                },
                Tree::Leaf(id),
                activate,
            ),
            final(self).wf(),
    {
        let index = match tile_idx {
            Some(t) => t,
            None => col_idx,
        };
        self.tree.insert_leaf_at(index, id, activate);
    }

    /// Add the windows of a column, each as a new last root child; the last one is focused
    /// when `activate` is set.
    pub fn add_column(&mut self, column: Column<u64>, activate: bool)
        requires
            old(self).wf(),
            root_size(old(self)@.root) + 2 * column@.len() + 2 <= super::container::behavior::MAX_TREE_NODES,
        ensures
            final(self)@ == append_all(old(self)@, column@, column@.len() as int, activate),
            final(self).wf(),
    {
        let tiles = column.into_tiles();
        let len = tiles.len();
        let mut i: usize = 0;
        while i < len
            invariant
                i <= len == tiles@.len(),
                self@ == append_all(old(self)@, tiles@, i as int, activate),
                self.wf(),
                root_size(self@.root) <= root_size(old(self)@.root) + 2 * i,
                root_size(old(self)@.root) + 2 * tiles@.len() + 2 <= super::container::behavior::MAX_TREE_NODES,
            decreases len - i,
        {
            let focus = activate && i == len - 1;
            let ghost before = self@;
            self.tree.append_leaf(tiles[i], focus);
            proof {
                super::container::laws::lemma_insert_at_root_size(
                    before,
                    root_children_len_spec(before) as usize,
                    Tree::Leaf(tiles@[i as int]),
                    focus,
                );
            }
            i = i + 1;
        }
    }

    /// Window updates need no change of the layout.
    pub fn update_window(&mut self, _id: u64)
        ensures
            final(self)@ == old(self)@,
    {
    }

    /// Column widths are not tracked; nothing changes.
    pub fn toggle_full_width(&mut self)
        ensures
            final(self)@ == old(self)@,
    {
    }

    /// Column widths are not tracked; nothing changes.
    pub fn toggle_width(&mut self, _forwards: bool)
        ensures
            final(self)@ == old(self)@,
    {
    }

    /// Window heights are not tracked; nothing changes.
    pub fn reset_window_height(&mut self, _window: Option<u64>)
        ensures
            final(self)@ == old(self)@,
    {
    }

    /// Window heights are not tracked; nothing changes.
    pub fn toggle_window_height(&mut self, _window: Option<u64>, _forwards: bool)
        ensures
            final(self)@ == old(self)@,
    {
    }

    /// Window widths are not tracked; nothing changes.
    pub fn toggle_window_width(&mut self, _window: Option<u64>, _forwards: bool)
        ensures
            final(self)@ == old(self)@,
    {
    }

    /// There is no view offset to centre; nothing changes.
    pub fn center_column(&mut self)
        ensures
            final(self)@ == old(self)@,
    {
    }

    /// There is no view offset to centre; nothing changes.
    pub fn center_window(&mut self, _window: Option<u64>)
        ensures
            final(self)@ == old(self)@,
    {
    }

    /// There is no view offset to centre; nothing changes.
    pub fn center_visible_columns(&mut self)
        ensures
            final(self)@ == old(self)@,
    {
    }

    /// Column widths are not tracked; nothing changes.
    pub fn expand_column_to_available_width(&mut self)
        ensures
            final(self)@ == old(self)@,
    {
    }

    /// Swapping windows by scroll direction is not supported; nothing changes.
    pub fn swap_window_in_direction(&mut self, _direction: ScrollDirection)
        ensures
            final(self)@ == old(self)@,
    {
    }

    /// The tabbed column display is not supported; nothing changes.
    pub fn toggle_column_tabbed_display(&mut self)
        ensures
            final(self)@ == old(self)@,
    {
    }

    /// Interactive resizing is not supported; nothing changes.
    pub fn interactive_resize_end(&mut self, _window: Option<u64>)
        ensures
            final(self)@ == old(self)@,
    {
    }

    /// Interactive resizing is not supported; nothing changes.
    pub fn cancel_resize_for_window(&mut self, _window: u64)
        ensures
            final(self)@ == old(self)@,
    {
    }

    /// View offset gestures are not supported; nothing changes.
    pub fn view_offset_gesture_begin(&mut self, _is_touchpad: bool)
        ensures
            final(self)@ == old(self)@,
    {
    }

    /// Drag-and-drop scrolling is not supported; nothing changes.
    pub fn dnd_scroll_gesture_begin(&mut self)
        ensures
            final(self)@ == old(self)@,
    {
    }

    /// Drag-and-drop scrolling is not supported; nothing changes.
    pub fn dnd_scroll_gesture_end(&mut self)
        ensures
            final(self)@ == old(self)@,
    {
    }

    /// Open animations are not run; reports that none started.
    pub fn start_open_animation(&mut self, _id: u64) -> (r: bool)
        ensures
            !r,
            final(self)@ == old(self)@,
    {
        false
    }

    /// Fullscreen is not supported; reports no change.
    pub fn set_fullscreen(&mut self, _window: u64, _is_fullscreen: bool) -> (r: bool)
        ensures
            !r,
            final(self)@ == old(self)@,
    {
        false
    }

    /// Interactive resizing is not supported; reports that none began.
    pub fn interactive_resize_begin(&mut self, _window: u64) -> (r: bool)
        ensures
            !r,
            final(self)@ == old(self)@,
    {
        false
    }

    /// Resizing is not tracked; an update changes nothing and reports no change.
    pub fn interactive_resize_update(&mut self, _window: u64) -> (r: bool)
        ensures
            !r,
            final(self)@ == old(self)@,
    {
        false
    }

    /// Fullscreen is not tracked; nothing changes.
    pub fn toggle_fullscreen(&mut self, _window: u64)
        ensures
            final(self)@ == old(self)@,
    {
    }

    /// Gesture ends change nothing; reports no change.
    pub fn view_offset_gesture_end(&mut self, _cancelled: Option<bool>) -> (r: bool)
        ensures
            !r,
            final(self)@ == old(self)@,
    {
        false
    }

    /// No window is ever fullscreen.
    pub fn is_fullscreen(&self, _window: u64) -> (r: bool)
        ensures
            !r,
    {
        false
    }

    /// Nothing is drawn above the top layer.
    pub fn render_above_top_layer(&self) -> (r: bool)
        ensures
            !r,
    {
        false
    }

    /// Columns are not removed as a whole; nothing is removed.
    pub fn remove_active_column(&mut self) -> (r: Option<Column<u64>>)
        ensures
            r is None,
            final(self)@ == old(self)@,
    {
        None
    }
}

} // verus!
