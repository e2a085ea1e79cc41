//! i3-style container tree.
//!
//! Containers form a tree where:
//! - Leaf nodes hold windows (by id)
//! - Internal nodes hold child containers with a specific layout
//! - Each container can have layouts: SplitH, SplitV, Tabbed, or Stacked
pub mod behavior;
pub mod cleanup_lemmas;
pub mod laws;
use self::laws::lemma_wrap_root;
pub mod lemmas;
pub mod model;
pub mod order_lemmas;
pub mod position_laws;
pub mod visibility_laws;

use vstd::prelude::*;

use self::behavior::{
    state_wf, has_room, insert_window_spec, MAX_TREE_NODES, ensure_root_container_spec, append_to_root,
    cleared, focused_window_spec, focus_window_by_id_spec, focus_parent_spec, focus_child_spec,
    dir_matches, focus_matches, dir_target, focus_dir_search, focus_in_direction_spec, Cleanup, cleanup,
    cleanup_step, remove_window_spec, unwrap_root, int_path, clamp_path, MovePlan, move_plan, move_would_panic, move_in_direction_spec, move_into_spec,
    reparent_spec, swap_kids, moved_leaf_focus, split_focused_spec, set_focused_layout_spec,
    focused_layout_spec, container_info_spec, find_parent_with_layout_spec, root_children_len_spec,
    focused_root_index_spec, focus_root_child_spec, move_root_child_spec, shifted_index,
    insert_at_root_spec, column_of, insert_leaf_after_spec, insert_leaf_in_column_spec,
    leaf_paths_under_spec, focus_leaf_in_root_child_spec, focus_top_spec, focus_bottom_spec,
    take_root_child_spec, child_visible, leaf_visibility, visibility_upto, TabBarGroupView,
    tab_bar_groups, tab_groups_upto, wrap_root_spec, root_without, wrap_host, axis_layout,
};
use self::cleanup_lemmas::{
    cleanup_wf, lemma_cleanup_step, lemma_cleanup, lemma_node_at_last, lemma_first_leaf_bound,
};
use self::lemmas::{
    lemma_single, lemma_insert, lemma_set_at, lemma_node_at_facts, lemma_focus_from_bound,
    lemma_remove_child,
    lemma_child_size_any, lemma_insert_child, lemma_set_focused, lemma_replace_node_wf,
    lemma_find_valid, lemma_leaves_upto_len, lemma_size_upto_mono,
    lemma_size_upto_bounds, lemma_child_size, lemma_set_at_parent, lemma_node_at_child,
    lemma_find_complete, lemma_set_at_contains, lemma_update, lemma_set_layout, lemma_remove,
    lemma_size_pos, lemma_leaf_paths_valid, lemma_node_at_append,
};
use self::model::{
    TreeState, descend, focus_from, size, size_upto, root_size, node_wf,
    Tree, node_at, set_at, lemma_node_at_step, lemma_set_at_step, set_layout, set_focused,
    insert_child, remove_child, local_wf, find, find_from, leaves, leaves_upto, root_leaves,
    root_find, root_node_at, first_leaf, wrap, leaf_paths, leaf_paths_upto, };

verus! {

// ============================================================================
// Container Types and Enums
// ============================================================================
/// Layout mode for a container (following i3 model)
#[derive(Debug, Clone, Copy, PartialEq, Eq, Structural)]
pub enum Layout {
    /// Horizontal split - children arranged left to right
    SplitH,
    /// Vertical split - children arranged top to bottom
    SplitV,
    /// Tabbed layout - children stacked with tab bar
    Tabbed,
    /// Stacked layout - children stacked with title bars
    Stacked,
}

/// Direction for navigation and movement
#[derive(Debug, Clone, Copy, PartialEq, Eq, Structural)]
pub enum Direction {
    Left,
    Right,
    Up,
    Down,
}

#[derive(Debug, Clone, PartialEq, Eq)]
pub struct TabBarTab {
    pub title: String,
    pub is_focused: bool,
    pub is_urgent: bool,
}

/// Container data: layout, children and the focused child.
#[derive(Debug)]
pub struct ContainerData {
    /// Layout mode for this container
    layout: Layout,
    /// Child nodes
    children: Vec<NodeData>,
    /// Index of focused child
    focused_idx: usize,
}

/// Node type in the container tree
#[derive(Debug)]
pub enum NodeData {
    /// Container node with children
    Container(ContainerData),
    /// Leaf node holding a window
    Leaf(u64),
}

/// Detached subtree used to move container structures across trees.
#[derive(Debug)]
pub enum DetachedNode {
    Container(DetachedContainer),
    Leaf(u64),
}

#[derive(Debug)]
pub struct DetachedContainer {
    layout: Layout,
    children: Vec<DetachedNode>,
    focused_idx: usize,
}

impl DetachedNode {
    pub closed spec fn view(&self) -> Tree
        decreases self,
    {
        match self {
            DetachedNode::Leaf(id) => Tree::Leaf(*id),
            DetachedNode::Container(c) => Tree::Container(
                c.layout,
                Seq::new(
                    c.children@.len(),
                    |i: int|
                        if 0 <= i < c.children@.len() {
                            c.children@[i].view()
                        } else {
                            Tree::Leaf(0)
                        },
                ),
                c.focused_idx,
            ),
        }
    }

    /// Every container of the subtree focuses one of its children (or is empty).
    pub open spec fn wf(&self) -> bool {
        node_wf(self@)
    }
}

impl DetachedContainer {
    pub closed spec fn view(&self) -> Tree {
        DetachedNode::Container(*self).view()
    }
}

pub open spec fn detached_kids_view(s: Seq<DetachedNode>) -> Seq<Tree> {
    Seq::new(s.len(), |i: int| s[i]@)
}

pub broadcast proof fn lemma_detached_view(n: DetachedNode)
    ensures
        #[trigger] n@ == match n {
            DetachedNode::Leaf(id) => Tree::Leaf(id),
            DetachedNode::Container(c) => Tree::Container(
                c.spec_layout(),
                detached_kids_view(c.spec_children()),
                c.spec_focused_idx(),
            ),
        },
{
    match n {
        DetachedNode::Leaf(_) => {},
        DetachedNode::Container(c) => {
            assert(n@.kids() =~= detached_kids_view(c.spec_children()));
        },
    }
}

pub broadcast proof fn lemma_detached_container_view(c: DetachedContainer)
    ensures
        #[trigger] c@ == Tree::Container(c.spec_layout(), detached_kids_view(c.spec_children()), c.spec_focused_idx()),
{
    assert(c@.kids() =~= detached_kids_view(c.spec_children()));
}

pub broadcast proof fn lemma_detached_kids_push(s: Seq<DetachedNode>, x: DetachedNode)
    ensures
        #[trigger] detached_kids_view(s.push(x)) == detached_kids_view(s).push(x@),
{
    assert(detached_kids_view(s.push(x)) =~= detached_kids_view(s).push(x@));
}

impl DetachedContainer {
    pub closed spec fn spec_layout(&self) -> Layout {
        self.layout
    }

    pub closed spec fn spec_children(&self) -> Seq<DetachedNode> {
        self.children@
    }

    pub closed spec fn spec_focused_idx(&self) -> usize {
        self.focused_idx
    }
}

impl NodeData {
    pub closed spec fn view(&self) -> Tree
        decreases self,
    {
        match self {
            NodeData::Leaf(id) => Tree::Leaf(*id),
            NodeData::Container(c) => Tree::Container(
                c.layout,
                Seq::new(
                    c.children@.len(),
                    |i: int|
                        if 0 <= i < c.children@.len() {
                            c.children@[i].view()
                        } else {
                            Tree::Leaf(0)
                        },
                ),
                c.focused_idx,
            ),
        }
    }
}

pub open spec fn kids_view(s: Seq<NodeData>) -> Seq<Tree> {
    Seq::new(s.len(), |i: int| s[i]@)
}

pub broadcast proof fn lemma_node_view(n: NodeData)
    ensures
        #[trigger] n@ == match n {
            NodeData::Leaf(id) => Tree::Leaf(id),
            NodeData::Container(c) => Tree::Container(c.spec_layout(), kids_view(c.spec_children()), c.spec_focused_idx()),
        },
{
    match n {
        NodeData::Leaf(_) => {},
        NodeData::Container(c) => {
            assert(n@.kids() =~= kids_view(c.spec_children()));
        },
    }
}

pub broadcast proof fn lemma_kids_view_update(s: Seq<NodeData>, i: int, x: NodeData)
    requires
        0 <= i < s.len(),
    ensures
        #[trigger] kids_view(s.update(i, x)) == kids_view(s).update(i, x@),
{
    assert(kids_view(s.update(i, x)) =~= kids_view(s).update(i, x@));
}

pub broadcast proof fn lemma_kids_view_insert(s: Seq<NodeData>, i: int, x: NodeData)
    requires
        0 <= i <= s.len(),
    ensures
        #[trigger] kids_view(s.insert(i, x)) == kids_view(s).insert(i, x@),
{
    assert(kids_view(s.insert(i, x)) =~= kids_view(s).insert(i, x@));
}

pub broadcast proof fn lemma_kids_view_remove(s: Seq<NodeData>, i: int)
    requires
        0 <= i < s.len(),
    ensures
        #[trigger] kids_view(s.remove(i)) == kids_view(s).remove(i),
{
    assert(kids_view(s.remove(i)) =~= kids_view(s).remove(i));
}

pub broadcast proof fn lemma_kids_view_add(a: Seq<NodeData>, b: Seq<NodeData>)
    ensures
        #[trigger] kids_view(a + b) == kids_view(a) + kids_view(b),
{
    assert(kids_view(a + b) =~= kids_view(a) + kids_view(b));
}

pub broadcast proof fn lemma_kids_view_subrange(s: Seq<NodeData>, i: int, j: int)
    requires
        0 <= i <= j <= s.len(),
    ensures
        #[trigger] kids_view(s.subrange(i, j)) == kids_view(s).subrange(i, j),
{
    assert(kids_view(s.subrange(i, j)) =~= kids_view(s).subrange(i, j));
}

pub broadcast group group_view_lemmas {
    lemma_detached_view,
    lemma_detached_container_view,
    lemma_detached_kids_push,
    lemma_node_view,
    lemma_kids_view_update,
    lemma_kids_view_insert,
    lemma_kids_view_remove,
    lemma_kids_view_add,
    lemma_kids_view_subrange,
    ContainerData::lemma_view,
}

impl ContainerData {
    pub closed spec fn spec_layout(&self) -> Layout {
        self.layout
    }

    pub closed spec fn spec_children(&self) -> Seq<NodeData> {
        self.children@
    }

    pub closed spec fn spec_focused_idx(&self) -> usize {
        self.focused_idx
    }

    pub closed spec fn view(&self) -> Tree {
        NodeData::Container(*self).view()
    }

    pub broadcast proof fn lemma_view(c: &ContainerData)
        ensures
            #[trigger] c@ == Tree::Container(c.spec_layout(), kids_view(c.spec_children()), c.spec_focused_idx()),
    {
        assert(c@.kids() =~= kids_view(c.spec_children()));
    }
}


// ============================================================================
// ContainerData Implementation
// ============================================================================
impl ContainerData {
    /// Create a new container with given layout
    pub fn new(layout: Layout) -> (r: Self)
        ensures
            r@ == Tree::Container(layout, Seq::empty(), 0),
            local_wf(r@),
    {
        broadcast use group_view_lemmas;

        let r = Self { layout, children: Vec::new(), focused_idx: 0 };
        assert(r@.kids() =~= Seq::<Tree>::empty());
        r
    }

    /// Get container layout
    pub fn layout(&self) -> (r: Layout)
        ensures
            r == self@.layout(),
    {
        broadcast use group_view_lemmas;

        self.layout
    }

    /// Set container layout
    pub fn set_layout(&mut self, layout: Layout)
        ensures
            final(self)@ == set_layout(old(self)@, layout),
    {
        broadcast use group_view_lemmas;

        self.layout = layout;
    }

    /// Get children
    pub fn children(&self) -> (r: &[NodeData])
        ensures
            kids_view(r@) == self@.kids(),
    {
        broadcast use group_view_lemmas;

        self.children.as_slice()
    }

    /// Number of children
    pub fn child_count(&self) -> (r: usize)
        ensures
            r == self@.kids().len(),
    {
        broadcast use group_view_lemmas;

        self.children.len()
    }

    /// Get focused child index
    pub fn focused_idx(&self) -> (r: usize)
        ensures
            r == self@.focused(),
    {
        broadcast use group_view_lemmas;

        self.focused_idx
    }

    /// Set focused child index (ignored when no such child exists)
    pub fn set_focused_idx(&mut self, idx: usize)
        ensures
            local_wf(old(self)@) ==> local_wf(final(self)@),
            final(self)@ == set_focused(old(self)@, idx as int),
    {
        broadcast use group_view_lemmas;

        if idx < self.children.len() {
            self.focused_idx = idx;
        }
    }

    /// Get focused child
    pub fn focused_child_key(&self) -> (r: Option<&NodeData>)
        ensures
            match r {
                Some(n) => self@.focused() < self@.kids().len() && n@ == self@.kids()[self@.focused() as int],
                None => self@.focused() >= self@.kids().len(),
            },
    {
        broadcast use group_view_lemmas;

        if self.focused_idx < self.children.len() {
            Some(&self.children[self.focused_idx])
        } else {
            None
        }
    }

    /// Add a child node at the end
    pub fn add_child(&mut self, node: NodeData)
        ensures
            local_wf(old(self)@) ==> local_wf(final(self)@),
            final(self)@ == insert_child(old(self)@, old(self)@.kids().len() as int, node@),
    {
        let idx = self.children.len();
        self.insert_child(idx, node);
    }

    /// Remove a child at index, returns the removed node
    pub fn remove_child(&mut self, idx: usize) -> (r: Option<NodeData>)
        requires
            local_wf(old(self)@),
        ensures
            local_wf(final(self)@),
            final(self)@ == remove_child(old(self)@, idx as int),
            match r {
                Some(n) => idx < old(self)@.kids().len() && n@ == old(self)@.kids()[idx as int],
                None => idx >= old(self)@.kids().len(),
            },
    {
        broadcast use group_view_lemmas;

        if idx >= self.children.len() {
            return None;
        }
        let key = self.children.remove(idx);
        // The focused child keeps the focus; past the end, the last child takes it.
        if idx < self.focused_idx {
            self.focused_idx = self.focused_idx - 1;
        } else if self.focused_idx >= self.children.len() && self.focused_idx > 0 {
            self.focused_idx = self.children.len() - 1;
        }
        Some(key)
    }

    /// Get child at index
    pub fn child_key(&self, idx: usize) -> (r: Option<&NodeData>)
        ensures
            match r {
                Some(n) => idx < self@.kids().len() && n@ == self@.kids()[idx as int],
                None => idx >= self@.kids().len(),
            },
    {
        broadcast use group_view_lemmas;

        if idx < self.children.len() {
            Some(&self.children[idx])
        } else {
            None
        }
    }

    /// Insert a child at `idx` (clamped to the end)
    pub fn insert_child(&mut self, idx: usize, node: NodeData)
        ensures
            local_wf(old(self)@) ==> local_wf(final(self)@),
            final(self)@ == insert_child(old(self)@, idx as int, node@),
    {
        broadcast use group_view_lemmas;

        let idx = if idx < self.children.len() {
            idx
        } else {
            self.children.len()
        };
        self.children.insert(idx, node);
    }

    /// Check if container is empty
    pub fn is_empty(&self) -> (r: bool)
        ensures
            r == (self@.kids().len() == 0),
    {
        broadcast use group_view_lemmas;

        self.children.len() == 0
    }

    /// Get number of children
    pub fn len(&self) -> (r: usize)
        ensures
            r == self@.kids().len(),
    {
        broadcast use group_view_lemmas;

        self.children.len()
    }
}

fn container_at_mut<'a>(n: &'a mut NodeData, path: &Vec<usize>, start: usize, end: usize) -> (r: &'a mut ContainerData)
    requires
        start <= end <= path@.len(),
        node_at(old(n)@, path@.subrange(start as int, end as int)) matches Some(Tree::Container(..)),
    ensures
        Some((*r)@) == node_at(old(n)@, path@.subrange(start as int, end as int)),
        final(n)@ == set_at(old(n)@, path@.subrange(start as int, end as int), final(r)@),
    decreases end - start,
{
    broadcast use group_view_lemmas;
    if start == end {
        assert(path@.subrange(start as int, end as int) =~= Seq::<usize>::empty());
        match n {
            NodeData::Container(c) => c,
            NodeData::Leaf(_) => vstd::pervasive::unreached(),
        }
    } else {
        proof {
            lemma_node_at_step(old(n)@, path@, start as int, end as int);
        }
        match n {
            NodeData::Container(c) => {
                let i = path[start];
                proof {
                    lemma_set_at_step(old(n)@, path@, start as int, end as int);
                }
                let child = &mut c.children[i];
                container_at_mut(child, path, start + 1, end)
            },
            NodeData::Leaf(_) => vstd::pervasive::unreached(),
        }
    }
}


fn node_ref_at<'a>(n: &'a NodeData, path: &Vec<usize>, start: usize, end: usize) -> (r: Option<&'a NodeData>)
    requires
        start <= end <= path@.len(),
    ensures
        match r {
            Some(x) => node_at(n@, path@.subrange(start as int, end as int)) == Some(x@),
            None => node_at(n@, path@.subrange(start as int, end as int)) is None,
        },
    decreases end - start,
{
    broadcast use group_view_lemmas;

    if start == end {
        assert(path@.subrange(start as int, end as int) =~= Seq::<usize>::empty());
        return Some(n);
    }
    proof {
        lemma_node_at_step(n@, path@, start as int, end as int);
    }
    match n {
        NodeData::Container(c) => {
            let i = path[start];
            if i < c.children.len() {
                node_ref_at(&c.children[i], path, start + 1, end)
            } else {
                None
            }
        },
        NodeData::Leaf(_) => None,
    }
}

/// Appends to `acc` the path from `n` down to a leaf through focused children.
fn descend_into(n: &NodeData, acc: &mut Vec<usize>) -> (r: bool)
    ensures
        r == descend(n@) is Some,
        r ==> final(acc)@ == old(acc)@ + descend(n@).unwrap(),
    decreases n,
{
    broadcast use group_view_lemmas;

    match n {
        NodeData::Leaf(_) => {
            assert(old(acc)@ + Seq::<usize>::empty() =~= old(acc)@);
            true
        },
        NodeData::Container(c) => {
            let f = c.focused_idx;
            if f < c.children.len() {
                acc.push(f);
                let child = &c.children[f];
                proof {
                    vstd::std_specs::vec::axiom_vec_index_decreases(c.children, f as int);
                }
                let r = descend_into(child, acc);
                proof {
                    if r {
                        let s = descend(child@).unwrap();
                        assert(old(acc)@.push(f) + s =~= old(acc)@ + (seq![f] + s));
                    }
                }
                r
            } else {
                false
            }
        },
    }
}

// ============================================================================
// ContainerTree
// ============================================================================
/// Root container tree for a workspace
#[derive(Debug)]
pub struct ContainerTree {
    /// Root node
    root: Option<NodeData>,
    /// Path to currently focused node (indices from root to leaf)
    focus_path: Vec<usize>,
    /// Stack of focus paths for parent/child navigation
    focus_parent_stack: Vec<Vec<usize>>,
    /// Layout of the next root container while the tree is empty
    pending_layout: Option<Layout>,
}

pub open spec fn opt_view(n: Option<NodeData>) -> Option<Tree> {
    match n {
        Some(x) => Some(x@),
        None => None,
    }
}

impl ContainerTree {
    pub closed spec fn view(&self) -> TreeState {
        TreeState {
            root: opt_view(self.root),
            focus: self.focus_path@,
            stack: self.focus_parent_stack@.map_values(|v: Vec<usize>| v@),
            pending: self.pending_layout,
        }
    }

    pub open spec fn wf(&self) -> bool {
        state_wf(self@)
    }

    /// Create a new empty container tree
    pub fn new() -> (r: Self)
        ensures
            r@ == (TreeState { root: None, focus: Seq::empty(), stack: Seq::empty(), pending: None }),
            r.wf(),
    {
        let r = Self { root: None, focus_path: Vec::new(), focus_parent_stack: Vec::new(), pending_layout: None };
        assert(r@.stack =~= Seq::<Seq<usize>>::empty());
        r
    }

    /// Check if tree is empty
    pub fn is_empty(&self) -> (r: bool)
        ensures
            r == (self@.root is None),
    {
        self.root.is_none()
    }

    fn clear_focus_history(&mut self)
        ensures
            final(self)@ == (TreeState { stack: Seq::empty(), ..old(self)@ }),
    {
        self.focus_parent_stack.clear();
        assert(self@.stack =~= Seq::<Seq<usize>>::empty());
    }

    /// Node at `path[..end]`.
    fn node_at_path(&self, path: &Vec<usize>, end: usize) -> (r: Option<&NodeData>)
        requires
            end <= path@.len(),
        ensures
            match r {
                Some(x) => self@.root matches Some(t) && node_at(t, path@.subrange(0, end as int)) == Some(x@),
                None => !(self@.root matches Some(t) && node_at(t, path@.subrange(0, end as int)) is Some),
            },
    {
        match &self.root {
            Some(r) => node_ref_at(r, path, 0, end),
            None => None,
        }
    }

    /// Mutable access to the container at `path[..end]`.
    fn container_at_path_mut(&mut self, path: &Vec<usize>, end: usize) -> (r: &mut ContainerData)
        requires
            end <= path@.len(),
            old(self)@.root matches Some(t) && node_at(t, path@.subrange(0, end as int)) matches Some(
                Tree::Container(..),
            ),
        ensures
            Some((*r)@) == node_at(old(self)@.root.unwrap(), path@.subrange(0, end as int)),
            final(self)@ == (TreeState {
                root: Some(set_at(old(self)@.root.unwrap(), path@.subrange(0, end as int), final(r)@)),
                ..old(self)@
            }),
    {
        match &mut self.root {
            Some(r) => container_at_mut(r, path, 0, end),
            None => vstd::pervasive::unreached(),
        }
    }

    /// Makes the root a container: an empty one with the pending layout (or a horizontal
    /// split) when the tree is empty, or a horizontal split holding the old root leaf
    /// (focused) when the root is a leaf.
    fn ensure_root_container(&mut self)
        requires
            old(self).wf(),
            has_room(old(self)@, 1),
        ensures
            final(self)@ == ensure_root_container_spec(old(self)@),
            final(self).wf(),
            root_size(final(self)@.root) <= root_size(old(self)@.root) + 1,
            final(self)@.root matches Some(Tree::Container(..)),
    {
        broadcast use group_view_lemmas;

        if self.root.is_none() {
            let layout = match self.pending_layout {
                Some(l) => l,
                None => Layout::SplitH,
            };
            let container = ContainerData::new(layout);
            self.root = Some(NodeData::Container(container));
            self.focus_path = Vec::new();
            self.pending_layout = None;
            return;
        }
        let is_leaf = match &self.root {
            Some(NodeData::Leaf(_)) => true,
            _ => false,
        };
        if is_leaf {
            let old_root = self.root.take().unwrap();
            let mut container = ContainerData::new(Layout::SplitH);
            container.add_child(old_root);
            container.set_focused_idx(0);
            self.focus_path = vec![0];
            self.root = Some(NodeData::Container(container));
            proof {
                let t = old(self)@.root.unwrap();
                assert(seq![t] =~= Seq::<Tree>::empty().insert(0, t));
                assert(self.focus_path@ =~= seq![0usize]);
                lemma_single(t);
            }
        }
    }

    /// Appends `id` as a new last child of the root container and focuses it.
    fn append_leaf_to_root(&mut self, id: u64)
        requires
            old(self).wf(),
            has_room(old(self)@, 1),
            old(self)@.root matches Some(Tree::Container(..)),
        ensures
            final(self)@ == append_to_root(old(self)@, old(self)@.root.unwrap(), Tree::Leaf(id)),
            final(self).wf(),
    {
        broadcast use group_view_lemmas;

        let ghost r = old(self)@.root.unwrap();
        let empty: Vec<usize> = Vec::new();
        let container = self.container_at_path_mut(&empty, 0);
        let insert_idx = container.len();
        container.insert_child(insert_idx, NodeData::Leaf(id));
        container.set_focused_idx(insert_idx);
        self.focus_path = vec![insert_idx];
        proof {
            assert(self.focus_path@ =~= seq![insert_idx]);
            assert(empty@.subrange(0, 0) =~= Seq::<usize>::empty());
            lemma_insert(r.kids(), r.kids().len() as int, Tree::Leaf(id));
            lemma_child_size_any(r);
        }
    }

    /// Insert a window into the tree as the next sibling of the focused node
    pub fn insert_window(&mut self, id: u64)
        requires
            old(self).wf(),
            has_room(old(self)@, 2),
        ensures
            final(self)@ == insert_window_spec(old(self)@, id),
            final(self).wf(),
    {
        broadcast use group_view_lemmas;

        self.clear_focus_history();
        if self.root.is_none() {
            // The first window becomes the root leaf, or the only child of a root container
            // with the pending layout.
            match self.pending_layout {
                None => {
                    self.root = Some(NodeData::Leaf(id));
                    self.focus_path.clear();
                    assert(self@.focus =~= Seq::<usize>::empty());
                },
                Some(l) => {
                    let mut container = wrap_node(l, NodeData::Leaf(id));
                    container.set_focused_idx(0);
                    self.root = Some(NodeData::Container(container));
                    self.focus_path = vec![0];
                    self.pending_layout = None;
                    assert(self.focus_path@ =~= seq![0usize]);
                },
            }
            return;
        }
        // Ensure the root is a container so we can insert siblings easily
        self.ensure_root_container();
        let ghost s1 = self@;
        let fp_len = self.focus_path.len();
        if fp_len == 0 {
            self.append_leaf_to_root(id);
            return;
        }
        let fp = self.focus_path.clone();
        assert(fp@ == self.focus_path@);
        let current_idx = fp[fp_len - 1];
        proof {
            assert(fp@.subrange(0, fp_len - 1) =~= fp@.drop_last());
        }
        let parent_is_container = match self.node_at_path(&fp, fp_len - 1) {
            Some(NodeData::Container(_)) => true,
            _ => false,
        };
        if parent_is_container {
            let insert_idx = current_idx + 1;
            let ghost r1 = s1.root.unwrap();
            let ghost pp = fp@.drop_last();
            let ghost p = node_at(r1, pp).unwrap();
            let ghost p2 = set_focused(insert_child(p, insert_idx as int, Tree::Leaf(id)), insert_idx as int);
            let parent_container = self.container_at_path_mut(&fp, fp_len - 1);
            parent_container.insert_child(insert_idx, NodeData::Leaf(id));
            parent_container.set_focused_idx(insert_idx);
            self.focus_path.truncate(fp_len - 1);
            self.focus_path.push(insert_idx);
            proof {
                lemma_node_at_facts(r1, pp);
                lemma_insert_child(p, insert_idx as int, Tree::Leaf(id));
                lemma_set_focused(insert_child(p, insert_idx as int, Tree::Leaf(id)), insert_idx as int);
                lemma_set_at(r1, pp, p2);
                assert(self@.focus =~= pp.push(insert_idx));
                assert forall|i: int| 0 <= i < self@.focus.len() implies #[trigger] self@.focus[i] <= size(set_at(r1, pp, p2)) by {
                    if i < pp.len() {
                        assert(self@.focus[i] == fp@[i]);
                    }
                }
                lemma_replace_node_wf(s1, pp, p2, self@.focus);
            }
            self.focus_to_first_leaf_from_path();
            return;
        }
        // Fallback: append to root container
        self.append_leaf_to_root(id);
    }

    /// Navigate to first leaf from current focus_path
    fn focus_to_first_leaf_from_path(&mut self)
        ensures
            final(self)@ == (TreeState { focus: focus_from(old(self)@.root, old(self)@.focus), ..old(self)@ }),
    {
        let mut acc = self.focus_path.clone();
        assert(acc@ == self.focus_path@);
        let len = self.focus_path.len();
        let ok = match self.node_at_path(&self.focus_path, len) {
            Some(n) => descend_into(n, &mut acc),
            None => false,
        };
        assert(self.focus_path@.subrange(0, len as int) =~= self.focus_path@);
        if ok {
            self.focus_path = acc;
        }
    }
}

// ============================================================================
// Searching and reading the tree
// ============================================================================
/// Appends to `path` the path from `n` to its first leaf holding `id`, if there is one.
#[verifier::loop_isolation(false)]
fn find_in_node(n: &NodeData, id: u64, path: &mut Vec<usize>) -> (r: bool)
    ensures
        r == find(n@, id) is Some,
        r ==> final(path)@ == old(path)@ + find(n@, id).unwrap(),
        !r ==> final(path)@ == old(path)@,
    decreases n,
{
    broadcast use group_view_lemmas;

    match n {
        NodeData::Leaf(x) => {
            assert(old(path)@ + Seq::<usize>::empty() =~= old(path)@);
            *x == id
        },
        NodeData::Container(c) => {
            let ghost ch = kids_view(c.children@);
            let mut i: usize = 0;
            while i < c.children.len()
                invariant
                    *n == NodeData::Container(*c),
                    i <= c.children@.len(),
                    ch == kids_view(c.children@),
                    path@ == old(path)@,
                    find_from(ch, id, 0) == find_from(ch, id, i as int),
                decreases c.children@.len() - i,
            {
                path.push(i);
                proof {
                    vstd::std_specs::vec::axiom_vec_index_decreases(c.children, i as int);
                }
                if find_in_node(&c.children[i], id, path) {
                    proof {
                        assert(n@ == Tree::Container(c.layout, ch, c.focused_idx));
                        let p = find(ch[i as int], id).unwrap();
                        assert(find_from(ch, id, i as int) == Some(seq![i] + p));
                        assert(old(path)@.push(i) + p =~= old(path)@ + (seq![i] + p));
                    }
                    return true;
                }
                path.pop();
                proof {
                    assert(old(path)@.push(i).subrange(0, old(path)@.len() as int) =~= old(path)@);
                }
                i = i + 1;
            }
            false
        },
    }
}

/// Number of leaves under `n`.
#[verifier::loop_isolation(false)]
fn count_windows_in_node(n: &NodeData) -> (r: usize)
    requires
        size(n@) <= MAX_TREE_NODES,
    ensures
        r == leaves(n@).len(),
    decreases n,
{
    broadcast use group_view_lemmas;

    match n {
        NodeData::Leaf(_) => 1,
        NodeData::Container(c) => {
            let ghost ch = kids_view(c.children@);
            let ghost len = ch.len() as int;
            let mut total: usize = 0;
            let mut i: usize = 0;
            while i < c.children.len()
                invariant
                    *n == NodeData::Container(*c),
                    i <= c.children@.len(),
                    ch == kids_view(c.children@),
                    len == ch.len(),
                    size_upto(ch, len) < MAX_TREE_NODES,
                    total == leaves_upto(ch, i as int).len(),
                decreases c.children@.len() - i,
            {
                proof {
                    lemma_size_upto_bounds(ch, len);
                    lemma_leaves_upto_len(ch, i + 1);
                    lemma_size_upto_mono(ch, i + 1, len);
                }
                let child = &c.children[i];
                proof {
                    vstd::std_specs::vec::axiom_vec_index_decreases(c.children, i as int);
                }
                let k = count_windows_in_node(child);
                total = total + k;
                i = i + 1;
            }
            total
        },
    }
}

/// Number of nodes (containers and leaves) of the subtree `n`.
#[verifier::loop_isolation(false)]
fn count_nodes_in_node(n: &NodeData) -> (r: usize)
    requires
        size(n@) <= MAX_TREE_NODES,
    ensures
        r == size(n@),
    decreases n,
{
    broadcast use group_view_lemmas;

    match n {
        NodeData::Leaf(_) => 1,
        NodeData::Container(c) => {
            let ghost ch = kids_view(c.children@);
            let ghost len = ch.len() as int;
            let mut total: usize = 1;
            let mut i: usize = 0;
            while i < c.children.len()
                invariant
                    *n == NodeData::Container(*c),
                    i <= c.children@.len(),
                    ch == kids_view(c.children@),
                    len == ch.len(),
                    size_upto(ch, len) < MAX_TREE_NODES,
                    total == 1 + size_upto(ch, i as int),
                decreases c.children@.len() - i,
            {
                proof {
                    lemma_size_upto_bounds(ch, len);
                    lemma_size_upto_mono(ch, i + 1, len);
                }
                let child = &c.children[i];
                proof {
                    vstd::std_specs::vec::axiom_vec_index_decreases(c.children, i as int);
                }
                let k = count_nodes_in_node(child);
                total = total + k;
                i = i + 1;
            }
            total
        },
    }
}

/// Appends the window ids of the leaves under `n`, depth-first.
#[verifier::loop_isolation(false)]
fn collect_windows(n: &NodeData, out: &mut Vec<u64>)
    ensures
        final(out)@ == old(out)@ + leaves(n@),
    decreases n,
{
    broadcast use group_view_lemmas;

    match n {
        NodeData::Leaf(x) => {
            out.push(*x);
            assert(old(out)@.push(*x) =~= old(out)@ + seq![*x]);
        },
        NodeData::Container(c) => {
            let ghost ch = kids_view(c.children@);
            let mut i: usize = 0;
            assert(old(out)@ + Seq::<u64>::empty() =~= old(out)@);
            while i < c.children.len()
                invariant
                    *n == NodeData::Container(*c),
                    i <= c.children@.len(),
                    ch == kids_view(c.children@),
                    out@ == old(out)@ + leaves_upto(ch, i as int),
                decreases c.children@.len() - i,
            {
                let ghost before = out@;
                let child = &c.children[i];
                proof {
                    vstd::std_specs::vec::axiom_vec_index_decreases(c.children, i as int);
                }
                collect_windows(child, out);
                proof {
                    assert(before + leaves(ch[i as int]) =~= old(out)@ + leaves_upto(ch, i + 1));
                }
                i = i + 1;
            }
        },
    }
}

/// Whether a container with layout `layout` moves in `direction`.
/// Whether the focus moves among the children of a container with `layout` in `direction`.
fn layout_focuses_in(layout: Layout, direction: Direction) -> (r: bool)
    ensures
        r == focus_matches(layout, direction),
{
    match layout {
        Layout::SplitH => direction == Direction::Left || direction == Direction::Right,
        Layout::SplitV => direction == Direction::Up || direction == Direction::Down,
        Layout::Tabbed | Layout::Stacked => true,
    }
}

fn layout_moves_in(layout: Layout, direction: Direction) -> (r: bool)
    ensures
        r == dir_matches(layout, direction),
{
    match (layout, direction) {
        (Layout::SplitH, Direction::Left) | (Layout::SplitH, Direction::Right) => true,
        (Layout::SplitV, Direction::Up) | (Layout::SplitV, Direction::Down) => true,
        (Layout::Tabbed, Direction::Left) | (Layout::Tabbed, Direction::Right) => true,
        (Layout::Stacked, Direction::Up) | (Layout::Stacked, Direction::Down) => true,
        _ => false,
    }
}

/// The sibling one step from `current_idx` in `direction`, among `child_count` children.
fn neighbour_index(current_idx: usize, child_count: usize, direction: Direction) -> (r: Option<usize>)
    requires
        current_idx < usize::MAX,
    ensures
        r == dir_target(current_idx, child_count as nat, direction),
{
    match direction {
        Direction::Left | Direction::Up => {
            if current_idx > 0 {
                Some(current_idx - 1)
            } else {
                None
            }
        },
        Direction::Right | Direction::Down => {
            if current_idx + 1 < child_count {
                Some(current_idx + 1)
            } else {
                None
            }
        },
    }
}

impl ContainerTree {
    /// Find a window by id and return the path to it
    pub fn find_window(&self, window_id: u64) -> (r: Option<Vec<usize>>)
        ensures
            match r {
                Some(p) => root_find(self@.root, window_id) == Some(p@),
                None => root_find(self@.root, window_id) is None,
            },
    {
        match &self.root {
            None => None,
            Some(n) => {
                let mut path: Vec<usize> = Vec::new();
                if find_in_node(n, window_id, &mut path) {
                    assert(Seq::<usize>::empty() + find(n@, window_id).unwrap() =~= find(n@, window_id).unwrap());
                    Some(path)
                } else {
                    None
                }
            },
        }
    }

    /// The window of the focused leaf, if the focus path names a leaf.
    pub fn focused_window(&self) -> (r: Option<u64>)
        ensures
            r == focused_window_spec(self@),
    {
        broadcast use group_view_lemmas;

        let len = self.focus_path.len();
        assert(self.focus_path@.subrange(0, len as int) =~= self.focus_path@);
        match self.node_at_path(&self.focus_path, len) {
            Some(NodeData::Leaf(x)) => Some(*x),
            _ => None,
        }
    }

    /// Count total number of windows in tree
    pub fn window_count(&self) -> (r: usize)
        requires
            self.wf(),
        ensures
            r == root_leaves(self@.root).len(),
    {
        match &self.root {
            None => 0,
            Some(n) => count_windows_in_node(n),
        }
    }

    /// Number of nodes (containers and windows) in the tree.
    pub fn node_count(&self) -> (r: usize)
        requires
            self.wf(),
        ensures
            r == root_size(self@.root),
    {
        match &self.root {
            None => 0,
            Some(n) => count_nodes_in_node(n),
        }
    }

    /// Whether the tree can take `k` more nodes without growing past `MAX_TREE_NODES`.
    pub fn has_room_for(&self, k: usize) -> (r: bool)
        requires
            self.wf(),
        ensures
            r == has_room(self@, k as nat),
    {
        let n = self.node_count();
        k <= MAX_TREE_NODES - n
    }

    /// Window ids of all leaves, depth-first.
    pub fn all_windows(&self) -> (r: Vec<u64>)
        ensures
            r@ == root_leaves(self@.root),
    {
        let mut out: Vec<u64> = Vec::new();
        match &self.root {
            None => {},
            Some(n) => {
                collect_windows(n, &mut out);
                assert(Seq::<u64>::empty() + leaves(n@) =~= leaves(n@));
            },
        }
        out
    }

    /// Current focus path within the tree.
    pub fn focus_path(&self) -> (r: &[usize])
        ensures
            r@ == self@.focus,
    {
        self.focus_path.as_slice()
    }

    /// The tile under the focus, named by its window (none when the focus is on a container).
    pub fn focused_tile(&self) -> (r: Option<u64>)
        ensures
            r == focused_window_spec(self@),
    {
        self.focused_window()
    }

    /// The tile at `path`, named by its window: none when `path` names no node or names a
    /// container.
    pub fn tile_at_path(&self, path: &[usize]) -> (r: Option<u64>)
        ensures
            r == match root_node_at(self@.root, path@) {
                Some(Tree::Leaf(id)) => Some(id),
                _ => None,
            },
    {
        broadcast use group_view_lemmas;

        let p = vstd::slice::slice_to_vec(path);
        let len = p.len();
        assert(p@.subrange(0, len as int) =~= path@);
        match self.node_at_path(&p, len) {
            Some(NodeData::Leaf(x)) => Some(*x),
            _ => None,
        }
    }

    /// All tiles, named by their windows, in depth-first order.
    pub fn all_tiles(&self) -> (r: Vec<u64>)
        ensures
            r@ == root_leaves(self@.root),
    {
        self.all_windows()
    }

    /// Focus window by its id if present.
    pub fn focus_window_by_id(&mut self, window_id: u64) -> (r: bool)
        requires
            old(self).wf(),
        ensures
            (final(self)@, r) == focus_window_by_id_spec(old(self)@, window_id),
            final(self).wf(),
    {
        self.clear_focus_history();
        match self.find_window(window_id) {
            Some(path) => {
                proof {
                    let t = self@.root.unwrap();
                    lemma_find_valid(t, window_id);
                    lemma_node_at_facts(t, path@);
                    lemma_focus_from_bound(self@.root, path@);
                }
                self.focus_path = path;
                self.focus_to_first_leaf_from_path();
                true
            },
            None => false,
        }
    }

    /// Focus the parent of the focused node (remembering the current focus).
    pub fn focus_parent(&mut self) -> (r: bool)
        requires
            old(self).wf(),
        ensures
            (final(self)@, r) == focus_parent_spec(old(self)@),
            final(self).wf(),
    {
        if self.focus_path.len() == 0 {
            return false;
        }
        let saved = self.focus_path.clone();
        assert(saved@ == self.focus_path@);
        self.focus_parent_stack.push(saved);
        self.focus_path.pop();
        proof {
            assert(self@.stack =~= old(self)@.stack.push(old(self)@.focus));
            assert(self@.focus =~= old(self)@.focus.drop_last());
            if self@.root is Some {
                lemma_focus_from_bound(self@.root, self@.focus);
            }
        }
        self.focus_to_first_leaf_from_path();
        true
    }

    /// Return to the focus remembered by the last `focus_parent`.
    pub fn focus_child(&mut self) -> (r: bool)
        requires
            old(self).wf(),
        ensures
            (final(self)@, r) == focus_child_spec(old(self)@),
            final(self).wf(),
    {
        let popped = self.focus_parent_stack.pop();
        match popped {
            None => {
                assert(self@ == old(self)@);
                false
            },
            Some(path) => {
                proof {
                    assert(self@.stack =~= old(self)@.stack.drop_last());
                    assert(path@ == old(self)@.stack.last());
                }
                let len = path.len();
                assert(path@.subrange(0, len as int) =~= path@);
                let found = self.node_at_path(&path, len).is_some();
                if !found {
                    self.focus_parent_stack.clear();
                    assert(self@.stack =~= Seq::<Seq<usize>>::empty());
                    return false;
                }
                proof {
                    let t = self@.root.unwrap();
                    lemma_node_at_facts(t, path@);
                    lemma_focus_from_bound(self@.root, path@);
                }
                self.focus_path = path;
                self.focus_to_first_leaf_from_path();
                true
            },
        }
    }

    /// Move focus in a direction
    pub fn focus_in_direction(&mut self, direction: Direction) -> (r: bool)
        requires
            old(self).wf(),
        ensures
            (final(self)@, r) == focus_in_direction_spec(old(self)@, direction),
            final(self).wf(),
    {
        broadcast use group_view_lemmas;

        self.clear_focus_history();
        if self.root.is_none() {
            return false;
        }
        let fp = self.focus_path.clone();
        assert(fp@ == self.focus_path@);
        let ghost r0 = self@.root.unwrap();
        let ghost s0 = self@;
        let mut depth = fp.len();
        while depth > 0
            invariant
                depth <= fp@.len(),
                self@ == s0,
                s0 == cleared(old(self)@),
                state_wf(s0),
                s0.root == Some(r0),
                fp@ == s0.focus,
                focus_dir_search(r0, fp@, direction, fp@.len() as int) == focus_dir_search(
                    r0,
                    fp@,
                    direction,
                    depth as int,
                ),
            decreases depth,
        {
            let k = depth - 1;
            let current_idx = fp[k];
            let target: Option<usize> = match self.node_at_path(&fp, k) {
                Some(NodeData::Container(c)) => {
                    if layout_focuses_in(c.layout, direction) {
                        neighbour_index(current_idx, c.children.len(), direction)
                    } else {
                        None
                    }
                },
                _ => None,
            };
            if let Some(t) = target {
                let ghost pp = fp@.subrange(0, k as int);
                let ghost p = node_at(r0, pp).unwrap();
                let ghost x = set_focused(p, t as int);
                let container = self.container_at_path_mut(&fp, k);
                container.set_focused_idx(t);
                self.focus_path.truncate(k);
                self.focus_path.push(t);
                proof {
                    lemma_node_at_facts(r0, pp);
                    lemma_set_focused(p, t as int);
                    lemma_child_size_any(p);
                    lemma_set_at(r0, pp, x);
                    assert(self@.focus =~= pp.push(t));
                    assert forall|i: int| 0 <= i < self@.focus.len() implies #[trigger] self@.focus[i] <= size(
                        set_at(r0, pp, x),
                    ) by {
                        if i < pp.len() {
                            assert(self@.focus[i] == fp@[i]);
                        }
                    }
                    lemma_replace_node_wf(s0, pp, x, self@.focus);
                }
                self.focus_to_first_leaf_from_path();
                return true;
            }
            depth = k;
        }
        false
    }
}

// ============================================================================
// Removing windows and cleaning up containers
// ============================================================================
impl ContainerData {
    /// Inserts a leaf holding `id` into child container `column` at `at` (clamped), focusing
    /// it when `focus` is set.
    fn insert_into_child(&mut self, column: usize, at: usize, id: u64, focus: bool)
        requires
            column < old(self)@.kids().len(),
            old(self)@.kids()[column as int] is Container,
        ensures
            final(self)@ == Tree::Container(
                old(self)@.layout(),
                old(self)@.kids().update(
                    column as int,
                    if focus {
                        set_focused(insert_child(old(self)@.kids()[column as int], at as int, Tree::Leaf(id)), at as int)
                    } else {
                        insert_child(old(self)@.kids()[column as int], at as int, Tree::Leaf(id))
                    },
                ),
                old(self)@.focused(),
            ),
    {
        broadcast use group_view_lemmas;

        let ghost before = self.children@;
        match &mut self.children[column] {
            NodeData::Container(cc) => {
                cc.insert_child(at, NodeData::Leaf(id));
                if focus {
                    cc.set_focused_idx(at);
                }
            },
            NodeData::Leaf(_) => {
                assert(false);
            },
        }
        proof {
            assert(kids_view(self.children@) =~= kids_view(before).update(column as int, self.children@[column as int]@));
        }
    }

}

/// Appends to `acc` the path from `n` to a leaf or an empty container, through each
/// container's focused child (the last child when the focused index is past the end).
fn descend_first(n: &NodeData, acc: &mut Vec<usize>)
    ensures
        final(acc)@ == old(acc)@ + first_leaf(n@),
    decreases n,
{
    broadcast use group_view_lemmas;

    match n {
        NodeData::Leaf(_) => {
            assert(old(acc)@ + Seq::<usize>::empty() =~= old(acc)@);
        },
        NodeData::Container(c) => {
            let len = c.children.len();
            if len == 0 {
                assert(old(acc)@ + Seq::<usize>::empty() =~= old(acc)@);
                return;
            }
            let i = if c.focused_idx < len {
                c.focused_idx
            } else {
                len - 1
            };
            acc.push(i);
            let child = &c.children[i];
            proof {
                vstd::std_specs::vec::axiom_vec_index_decreases(c.children, i as int);
            }
            descend_first(child, acc);
            proof {
                let s = first_leaf(child@);
                assert(old(acc)@.push(i) + s =~= old(acc)@ + (seq![i] + s));
            }
        },
    }
}

/// What cleanup does at one level.
enum CleanupAction {
    Keep,
    RemoveEmpty,
}

impl ContainerTree {
    /// Focus the leaf reached from the root through focused children.
    fn focus_first_leaf(&mut self)
        ensures
            final(self)@ == (TreeState {
                focus: match old(self)@.root {
                    Some(t) => first_leaf(t),
                    None => Seq::empty(),
                },
                ..old(self)@
            }),
    {
        let mut path: Vec<usize> = Vec::new();
        match &self.root {
            Some(n) => {
                descend_first(n, &mut path);
                assert(Seq::<usize>::empty() + first_leaf(n@) =~= first_leaf(n@));
            },
            None => {},
        }
        self.focus_path = path;
    }

    /// One cleanup step on child `path[end - 1]` of the container at `path[..end - 1]`.
    #[verifier::spinoff_prover]
    #[verifier::rlimit(40)]
    fn cleanup_step(&mut self, path: &Vec<usize>, end: usize, Ghost(g): Ghost<Cleanup>) -> (r: Ghost<Cleanup>)
        requires
            1 <= end <= path@.len(),
            g.root == old(self)@.root,
            g.stack == old(self)@.stack,
            old(self)@.focus == clamp_path(g.focus),
            cleanup_wf(g),
            root_size(g.root) <= MAX_TREE_NODES,
        ensures
            r@ == cleanup_step(g, path@.subrange(0, end - 1), path@[end - 1] as int),
            final(self)@.root == r@.root,
            final(self)@.stack == r@.stack,
            final(self)@.focus == clamp_path(r@.focus),
            final(self)@.pending == old(self)@.pending,
    {
        broadcast use group_view_lemmas;

        let depth = end - 1;
        let li = path[depth];
        let ghost pp = path@.subrange(0, depth as int);
        let action = match self.node_at_path(path, depth) {
            Some(NodeData::Container(p)) => {
                if li < p.children.len() {
                    match &p.children[li] {
                        NodeData::Container(c) => {
                            if c.children.len() == 0 {
                                CleanupAction::RemoveEmpty
                            } else {
                                CleanupAction::Keep
                            }
                        },
                        NodeData::Leaf(_) => CleanupAction::Keep,
                    }
                } else {
                    CleanupAction::Keep
                }
            },
            _ => CleanupAction::Keep,
        };
        let ghost next = cleanup_step(g, pp, li as int);
        match action {
            CleanupAction::Keep => {},
            CleanupAction::RemoveEmpty => {
                let ghost r = g.root.unwrap();
                proof {
                    lemma_node_at_facts(r, pp);
                }
                let parent = self.container_at_path_mut(path, depth);
                parent.remove_child(li);
                assert(self@.root == next.root);
            },
        }
        Ghost(next)
    }
}

impl ContainerTree {
    /// Cleans up the containers on `path[..len]`, deepest first, then drops an empty root.
    fn cleanup_containers(&mut self, path: &Vec<usize>, len: usize, Ghost(g): Ghost<Cleanup>) -> (r: Ghost<
        Cleanup,
    >)
        requires
            len <= path@.len(),
            g.root == old(self)@.root,
            g.stack == old(self)@.stack,
            old(self)@.focus == clamp_path(g.focus),
            cleanup_wf(g),
            root_size(g.root) <= MAX_TREE_NODES,
        ensures
            r@ == cleanup(g, path@.subrange(0, len as int)),
            final(self)@.root == r@.root,
            final(self)@.stack == r@.stack,
            final(self)@.focus == clamp_path(r@.focus),
            final(self)@.pending == old(self)@.pending,
    {
        let mut end = len;
        let ghost mut cur = g;
        while end > 0
            invariant
                end <= len <= path@.len(),
                cleanup(g, path@.subrange(0, len as int)) == cleanup(cur, path@.subrange(0, end as int)),
                cur.root == self@.root,
                cur.stack == self@.stack,
                self@.focus == clamp_path(cur.focus),
                self@.pending == old(self)@.pending,
                cleanup_wf(cur),
                root_size(cur.root) <= MAX_TREE_NODES,
            decreases end,
        {
            proof {
                let q = path@.subrange(0, end as int);
                assert(q.drop_last() =~= path@.subrange(0, end - 1));
                assert(q.last() == path@[end - 1]);
                lemma_cleanup_step(cur, path@.subrange(0, end - 1), path@[end - 1] as int);
            }
            let Ghost(next) = self.cleanup_step(path, end, Ghost(cur));
            proof {
                cur = next;
            }
            end = end - 1;
        }
        let empty_root = match &self.root {
            Some(NodeData::Container(c)) => c.children.len() == 0,
            _ => false,
        };
        proof {
            assert(path@.subrange(0, 0) =~= Seq::<usize>::empty());
        }
        if empty_root {
            self.root = None;
        }
        Ghost(cleanup(g, path@.subrange(0, len as int)))
    }

    /// Remove a window by id; returns the id when the window was found.
    pub fn remove_window(&mut self, window_id: u64) -> (r: Option<u64>)
        requires
            old(self).wf(),
        ensures
            (final(self)@, r) == remove_window_spec(old(self)@, window_id),
            final(self).wf(),
    {
        broadcast use group_view_lemmas;

        let path = match self.find_window(window_id) {
            Some(p) => p,
            None => return None,
        };
        let focused_before = self.focused_window();
        let old_layout: Option<Layout> = match &self.root {
            Some(NodeData::Container(c)) => Some(c.layout),
            _ => None,
        };
        let ghost s0 = self@;
        let ghost t = self@.root.unwrap();
        let ghost g_focus = int_path(self@.focus);
        proof {
            lemma_find_valid(t, window_id);
            assert forall|i: int| 0 <= i < g_focus.len() implies #[trigger] g_focus[i] >= 0 by {}
            assert(self@.focus =~= clamp_path(g_focus));
        }
        let plen = path.len();
        let clen: usize;
        if plen == 0 {
            self.root = None;
            clen = 0;
        } else {
            clen = plen - 1;
            proof {
                lemma_node_at_last(t, path@);
                assert(path@.subrange(0, clen as int) =~= path@.drop_last());
                lemma_node_at_facts(t, path@.drop_last());
                let p = node_at(t, path@.drop_last()).unwrap();
                lemma_remove_child(p, path@.last() as int);
                lemma_set_at(t, path@.drop_last(), remove_child(p, path@.last() as int));
            }
            let parent = self.container_at_path_mut(&path, clen);
            parent.remove_child(path[clen]);
        }
        let ghost g = Cleanup { root: self@.root, focus: g_focus, stack: self@.stack };
        proof {
            assert(path@.subrange(0, clen as int) =~= (if plen == 0 {
                Seq::<usize>::empty()
            } else {
                path@.drop_last()
            }));
            lemma_cleanup(g, path@.subrange(0, clen as int));
        }
        let Ghost(c) = self.cleanup_containers(&path, clen, Ghost(g));
        // A root container left with a single child gives way to it.
        let single = match &self.root {
            Some(NodeData::Container(rc)) => rc.children.len() == 1,
            _ => false,
        };
        if single {
            let old_root = self.root.take();
            match old_root {
                Some(NodeData::Container(mut rc)) => {
                    let ghost rv = rc@;
                    let child = rc.children.remove(0);
                    proof {
                        lemma_single(rv.kids()[0]);
                        lemma_size_upto_bounds(rv.kids(), 1);
                        assert(rv.kids() =~= seq![child@]);
                    }
                    self.root = Some(child);
                },
                _ => {},
            }
            self.focus_parent_stack.clear();
            assert(self@.stack =~= Seq::<Seq<usize>>::empty());
        }
        proof {
            lemma_cleanup(g, path@.subrange(0, clen as int));
        }
        let ghost root2 = self@.root;
        assert(root2 == unwrap_root(c.root));
        if self.root.is_none() {
            self.focus_path.clear();
            assert(self@.focus =~= Seq::<usize>::empty());
            match old_layout {
                Some(l) => {
                    self.pending_layout = Some(l);
                },
                None => {},
            }
        } else {
            let kept = match focused_before {
                Some(w) => if w != window_id {
                    self.find_window(w)
                } else {
                    None
                },
                None => None,
            };
            match kept {
                Some(q) => {
                    proof {
                        let r2 = root2.unwrap();
                        lemma_find_valid(r2, focused_before.unwrap());
                        lemma_node_at_facts(r2, q@);
                    }
                    self.focus_path = q;
                },
                None => {
                    self.focus_first_leaf();
                    proof {
                        lemma_first_leaf_bound(root2.unwrap());
                    }
                },
            }
        }
        Some(window_id)
    }
}

// ============================================================================
// Moving windows
// ============================================================================
/// The focused leaf is listed among the leaves of a container after it is inserted there.
proof fn lemma_inserted_leaf_found(
    r1: Tree,
    q: Seq<usize>,
    target: Tree,
    idx: int,
    id: u64,
) -> (r2: Tree)
    requires
        node_at(r1, q) == Some(target),
        target is Container,
        0 <= idx <= target.kids().len(),
        node_wf(r1),
        size(r1) < MAX_TREE_NODES,
    ensures
        r2 == set_at(r1, q, set_focused(insert_child(target, idx, Tree::Leaf(id)), idx)),
        leaves(r2).contains(id),
        node_wf(r2),
        size(r2) == size(r1) + 1,
{
    let x = insert_child(target, idx, Tree::Leaf(id));
    let y = set_focused(x, idx);
    lemma_node_at_facts(r1, q);
    lemma_insert_child(target, idx, Tree::Leaf(id));
    lemma_set_focused(x, idx);
    lemma_insert(target.kids(), idx, Tree::Leaf(id));
    let a = leaves_upto(target.kids().subrange(0, idx), idx);
    assert(leaves(Tree::Leaf(id)) =~= seq![id]);
    assert(leaves(y)[a.len() as int] == id);
    lemma_set_at(r1, q, y);
    lemma_set_at_contains(r1, q, y, id);
    set_at(r1, q, y)
}

impl ContainerTree {
    /// After a leaf holding `id` was moved and the containers around were cleaned up,
    /// focuses that leaf.
    fn finish_move(&mut self, id: u64, Ghost(c): Ghost<Cleanup>)
        requires
            old(self)@.root == c.root,
            old(self)@.stack == c.stack,
            old(self)@.focus == clamp_path(c.focus),
            cleanup_wf(c),
            root_size(c.root) <= MAX_TREE_NODES,
            root_leaves(c.root).contains(id),
        ensures
            final(self)@ == (TreeState { root: c.root, focus: moved_leaf_focus(c, id), stack: c.stack, pending: old(self)@.pending }),
            final(self).wf(),
    {
        proof {
            let t = c.root.unwrap();
            lemma_find_complete(t, id);
            lemma_find_valid(t, id);
            lemma_node_at_facts(t, find(t, id).unwrap());
        }
        match self.find_window(id) {
            Some(p) => {
                self.focus_path = p;
            },
            None => {},
        }
    }

    /// Moves the focused leaf into the sibling container `t`, next to that container's
    /// focused child.
    #[verifier::spinoff_prover]
    fn move_leaf_into_container(&mut self, fp: &Vec<usize>, t: usize, direction: Direction, target_focus_idx: usize) -> (r: bool)
        requires
            old(self).wf(),
            old(self)@.stack == Seq::<Seq<usize>>::empty(),
            fp@ == old(self)@.focus,
            move_plan(old(self)@, direction) == MovePlan::IntoContainer(t),
            target_focus_idx == node_at(old(self)@.root.unwrap(), fp@.drop_last()).unwrap().kids()[t as int].focused(),
        ensures
            (final(self)@, r) == move_into_spec(old(self)@, t, direction),
            final(self).wf(),
    {
        broadcast use group_view_lemmas;

        let fl = fp.len();
        let pdepth = fl - 1;
        let li = fp[pdepth];
        assert(fp@.subrange(0, fl as int) =~= fp@);
        let leaf = match self.node_at_path(fp, fl) {
            Some(NodeData::Leaf(id)) => Some(*id),
            _ => None,
        };
        let id = match leaf {
            Some(id) => id,
            None => return false,
        };
        let ghost r = self@.root.unwrap();
        let ghost pp = fp@.drop_last();
        let ghost p = node_at(r, pp).unwrap();
        proof {
            assert(fp@.subrange(0, pdepth as int) =~= pp);
            lemma_node_at_last(r, fp@);
            lemma_node_at_facts(r, pp);
            lemma_remove_child(p, li as int);
            lemma_set_at(r, pp, remove_child(p, li as int));
        }
        let parent = self.container_at_path_mut(fp, pdepth);
        parent.remove_child(li);
        let ghost r1 = self@.root.unwrap();
        let t2 = if t > li {
            t - 1
        } else {
            t
        };
        let mut q: Vec<usize> = fp.clone();
        assert(q@ == fp@);
        q.truncate(pdepth);
        q.push(t2);
        proof {
            assert(q@ =~= pp.push(t2));
            assert(q@.subrange(0, fl as int) =~= q@);
            lemma_node_at_child(r1, pp, t2);
            assert(remove_child(p, li as int).kids()[t2 as int] == p.kids()[t as int]);
            lemma_child_size(p, t as int);
            lemma_child_size_any(p.kids()[t as int]);
            assert(local_wf(p.kids()[t as int]));
        }
        let target = self.container_at_path_mut(&q, fl);
        let split = target.layout == Layout::SplitH || target.layout == Layout::SplitV;
        let ins = match direction {
            Direction::Left | Direction::Up => if split {
                target_focus_idx + 1
            } else {
                target_focus_idx
            },
            Direction::Right | Direction::Down => if split {
                target_focus_idx
            } else {
                target_focus_idx + 1
            },
        };
        let count = target.child_count();
        let idx = if ins < count {
            ins
        } else {
            count
        };
        target.insert_child(idx, NodeData::Leaf(id));
        target.set_focused_idx(idx);
        proof {
            let tg = p.kids()[t as int];
            lemma_inserted_leaf_found(r1, q@, tg, idx as int, id);
            assert(self@.focus =~= clamp_path(int_path(self@.focus)));
        }
        let ghost g = Cleanup { root: self@.root, focus: int_path(self@.focus), stack: self@.stack };
        proof {
            lemma_cleanup(g, fp@.subrange(0, pdepth as int));
        }
        let Ghost(c) = self.cleanup_containers(fp, pdepth, Ghost(g));
        self.finish_move(id, Ghost(c));
        true
    }

    /// Moves the focused leaf out of its container into the grandparent, next to the
    /// container it left.
    #[verifier::spinoff_prover]
    fn reparent_leaf_to_grandparent(&mut self, fp: &Vec<usize>, direction: Direction) -> (r: bool)
        requires
            old(self).wf(),
            old(self)@.stack == Seq::<Seq<usize>>::empty(),
            fp@ == old(self)@.focus,
            move_plan(old(self)@, direction) == MovePlan::Reparent,
        ensures
            (final(self)@, r) == reparent_spec(old(self)@, direction),
            final(self).wf(),
    {
        broadcast use group_view_lemmas;

        let fl = fp.len();
        let pdepth = fl - 1;
        let li = fp[pdepth];
        assert(fp@.subrange(0, fl as int) =~= fp@);
        let leaf = match self.node_at_path(fp, fl) {
            Some(NodeData::Leaf(id)) => Some(*id),
            _ => None,
        };
        let id = match leaf {
            Some(id) => id,
            None => return false,
        };
        let ghost r = self@.root.unwrap();
        let ghost pp = fp@.drop_last();
        let ghost p = node_at(r, pp).unwrap();
        let gdepth = pdepth - 1;
        let pidx = fp[gdepth];
        proof {
            assert(fp@.subrange(0, pdepth as int) =~= pp);
            assert(fp@.subrange(0, gdepth as int) =~= pp.drop_last());
            lemma_node_at_last(r, fp@);
            lemma_node_at_facts(r, pp);
            lemma_node_at_facts(r, fp@);
            lemma_remove_child(p, li as int);
            lemma_set_at(r, pp, remove_child(p, li as int));
            lemma_set_at_parent(r, pp, remove_child(p, li as int));
        }
        let parent = self.container_at_path_mut(fp, pdepth);
        let single = parent.children.len() == 1;
        parent.remove_child(li);
        let ghost r1 = self@.root.unwrap();
        let ins = match direction {
            Direction::Left | Direction::Up => if single && pidx > 0 {
                pidx - 1
            } else {
                pidx
            },
            Direction::Right | Direction::Down => if single {
                pidx + 2
            } else {
                pidx + 1
            },
        };
        let grand = self.container_at_path_mut(fp, gdepth);
        let ghost g0 = grand@;
        let count = grand.child_count();
        let at = if ins < count {
            ins
        } else {
            count
        };
        let left = if at <= pidx {
            pidx + 1
        } else {
            pidx
        };
        grand.insert_child(at, NodeData::Leaf(id));
        grand.set_focused_idx(at);
        proof {
            let gp = pp.drop_last();
            lemma_inserted_leaf_found(r1, gp, g0, at as int, id);
            assert(self@.focus =~= clamp_path(int_path(self@.focus)));
        }
        let mut cp: Vec<usize> = fp.clone();
        assert(cp@ == fp@);
        cp.truncate(gdepth);
        cp.push(left);
        let ghost g = Cleanup { root: self@.root, focus: int_path(self@.focus), stack: self@.stack };
        proof {
            assert(cp@ =~= pp.drop_last().push(left));
            assert(cp@.subrange(0, pdepth as int) =~= cp@);
            lemma_cleanup(g, cp@);
        }
        let Ghost(c) = self.cleanup_containers(&cp, pdepth, Ghost(g));
        self.finish_move(id, Ghost(c));
        true
    }

    /// Whether `move_in_direction` is defined on this tree: it is not when the focused index
    /// is past the last child of its container (left so by a removal before it) and the move
    /// would swap it with a neighbour.
    #[verifier::spinoff_prover]
    pub fn move_is_defined(&self, direction: Direction) -> (r: bool)
        requires
            self.wf(),
        ensures
            r == !move_would_panic(self@, direction),
    {
        broadcast use group_view_lemmas;

        if self.root.is_none() {
            return true;
        }
        let fl = self.focus_path.len();
        if fl == 0 {
            return true;
        }
        let pdepth = fl - 1;
        let li = self.focus_path[pdepth];
        proof {
            assert(self.focus_path@.subrange(0, pdepth as int) =~= self@.focus.drop_last());
            assert(li <= MAX_TREE_NODES);
        }
        let c = match self.node_at_path(&self.focus_path, pdepth) {
            Some(NodeData::Container(c)) => c,
            _ => return true,
        };
        if !layout_moves_in(c.layout, direction) {
            return true;
        }
        let count = c.children.len();
        let t = match neighbour_index(li, count, direction) {
            Some(t) => t,
            None => return true,
        };
        if t >= count {
            return true;
        }
        if c.layout == Layout::SplitH || c.layout == Layout::SplitV {
            match &c.children[t] {
                NodeData::Container(tc) => {
                    if tc.layout != c.layout {
                        return true;
                    }
                },
                NodeData::Leaf(_) => {},
            }
        }
        li < count
    }

    /// Move the focused window in a direction: swap it with its neighbour, move it into a
    /// neighbouring container of the other orientation, move it out of its container, or,
    /// from the root across the root's axis, to the edge of the tree.
    #[verifier::spinoff_prover]
    #[verifier::rlimit(40)]
    pub fn move_in_direction(&mut self, direction: Direction) -> (r: bool)
        requires
            old(self).wf(),
            !move_would_panic(old(self)@, direction),
        ensures
            (final(self)@, r) == move_in_direction_spec(old(self)@, direction),
            final(self).wf(),
    {
        broadcast use group_view_lemmas;

        self.clear_focus_history();
        if self.root.is_none() {
            return false;
        }
        let fl = self.focus_path.len();
        if fl == 0 {
            return false;
        }
        let fp = self.focus_path.clone();
        assert(fp@ == self.focus_path@);
        let pdepth = fl - 1;
        let li = fp[pdepth];
        let ghost r = self@.root.unwrap();
        let ghost pp = fp@.drop_last();
        proof {
            assert(fp@.subrange(0, pdepth as int) =~= pp);
            assert(li <= MAX_TREE_NODES);
        }
        let info = match self.node_at_path(&fp, pdepth) {
            Some(NodeData::Container(c)) => Some((c.layout, c.children.len())),
            _ => None,
        };
        let (pl, count) = match info {
            Some(x) => x,
            None => return false,
        };
        if layout_moves_in(pl, direction) {
            let t = match neighbour_index(li, count, direction) {
                Some(t) => t,
                None => return false,
            };
            if t >= count {
                return false;
            }
            let into: Option<usize> = if pl == Layout::SplitH || pl == Layout::SplitV {
                match self.node_at_path(&fp, pdepth) {
                    Some(NodeData::Container(c)) => match &c.children[t] {
                        NodeData::Container(tc) => if tc.layout != pl {
                            Some(tc.focused_idx)
                        } else {
                            None
                        },
                        NodeData::Leaf(_) => None,
                    },
                    _ => None,
                }
            } else {
                None
            };
            match into {
                Some(tfi) => {
                    return self.move_leaf_into_container(&fp, t, direction, tfi);
                },
                None => {},
            }
            let ghost p = node_at(r, pp).unwrap();
            let ghost s0 = self@;
            let ghost x = set_focused(
                Tree::Container(p.layout(), swap_kids(p.kids(), li as int, t as int), p.focused()),
                t as int,
            );
            let parent = self.container_at_path_mut(&fp, pdepth);
            let ghost before = parent.children@;
            let moved = parent.children.remove(li);
            parent.children.insert(t, moved);
            proof {
                assert(parent.children@ =~= before.update(li as int, before[t as int]).update(t as int, before[li as int]));
            }
            parent.set_focused_idx(t);
            self.focus_path.truncate(pdepth);
            self.focus_path.push(t);
            proof {
                let pch = p.kids();
                lemma_node_at_facts(r, pp);
                lemma_child_size(p, li as int);
                lemma_child_size(p, t as int);
                lemma_update(pch, li as int, pch[t as int]);
                lemma_update(pch.update(li as int, pch[t as int]), t as int, pch[li as int]);
                let y = Tree::Container(p.layout(), swap_kids(pch, li as int, t as int), p.focused());
                lemma_set_focused(y, t as int);
                lemma_set_at(r, pp, x);
                assert(self@.focus =~= pp.push(t));
                assert forall|i: int| 0 <= i < self@.focus.len() implies #[trigger] self@.focus[i] <= size(
                    set_at(r, pp, x),
                ) by {
                    if i < pp.len() {
                        assert(self@.focus[i] == fp@[i]);
                    }
                }
                lemma_replace_node_wf(s0, pp, x, self@.focus);
            }
            self.focus_to_first_leaf_from_path();
            return true;
        }
        if pdepth == 0 {
            if li < count && count >= 2 && self.node_count() < MAX_TREE_NODES {
                proof {
                    assert(self@.focus =~= seq![li]);
                }
                self.move_out_of_root(li, direction);
                return true;
            }
            return false;
        }
        self.reparent_leaf_to_grandparent(&fp, direction)
    }

    /// Move root child `li`, the focused node, out across the root's axis (see
    /// `wrap_root_spec`).
    fn move_out_of_root(&mut self, li: usize, direction: Direction)
        requires
            old(self).wf(),
            old(self)@.root matches Some(r) && r is Container && li < r.kids().len() && r.kids().len() >= 2,
            old(self)@.focus == seq![li],
            root_size(old(self)@.root) < MAX_TREE_NODES,
        ensures
            final(self)@ == wrap_root_spec(old(self)@, direction).0,
            final(self).wf(),
    {
        broadcast use group_view_lemmas;

        let ghost s0 = self@;
        let ghost r = s0.root.unwrap();
        proof {
            lemma_wrap_root(r, li as int, direction);
        }
        let root = self.root.take();
        let mut c = match root {
            Some(NodeData::Container(c)) => c,
            _ => {
                proof {
                    assert(false);
                }
                return;
            },
        };
        assert(c@ == r);
        let x = c.remove_child(li).unwrap();
        let rest: NodeData = if c.children.len() == 1 {
            c.children.remove(0)
        } else {
            NodeData::Container(c)
        };
        assert(rest@ == root_without(r, li as int));
        let al = axis_layout_of(direction);
        let mut host: ContainerData = match rest {
            NodeData::Container(rc) => if rc.layout == al {
                rc
            } else {
                wrap_node(al, NodeData::Container(rc))
            },
            NodeData::Leaf(id) => wrap_node(al, NodeData::Leaf(id)),
        };
        assert(host@ == wrap_host(root_without(r, li as int), direction));
        let k: usize = match direction {
            Direction::Left | Direction::Up => 0,
            Direction::Right | Direction::Down => host.children.len(),
        };
        host.insert_child(k, x);
        host.set_focused_idx(k);
        self.root = Some(NodeData::Container(host));
        self.focus_path = vec![k];
        proof {
            assert(self.focus_path@ =~= seq![k]);
        }
    }
}

/// The layout of a container whose children line up in direction `direction`.
fn axis_layout_of(direction: Direction) -> (r: Layout)
    ensures
        r == axis_layout(direction),
{
    match direction {
        Direction::Left | Direction::Right => Layout::SplitH,
        Direction::Up | Direction::Down => Layout::SplitV,
    }
}

// ============================================================================
// Splitting and layouts
// ============================================================================
/// A new container with `layout` holding just `node`.
fn wrap_node(layout: Layout, node: NodeData) -> (r: ContainerData)
    ensures
        r@ == wrap(layout, node@),
        node_wf(node@) ==> node_wf(r@),
        size(r@) == size(node@) + 1,
{
    broadcast use group_view_lemmas;

    let mut container = ContainerData::new(layout);
    container.add_child(node);
    proof {
        assert(Seq::<Tree>::empty().insert(0, node@) =~= seq![node@]);
        lemma_single(node@);
    }
    container
}

impl ContainerTree {
    /// Split the focused window: wrap it in a new container with `layout`.
    pub fn split_focused(&mut self, layout: Layout) -> (r: bool)
        requires
            old(self).wf(),
            has_room(old(self)@, 1),
        ensures
            (final(self)@, r) == split_focused_spec(old(self)@, layout),
            final(self).wf(),
    {
        broadcast use group_view_lemmas;

        self.clear_focus_history();
        if self.root.is_none() {
            self.pending_layout = Some(layout);
            return true;
        }
        let fl = self.focus_path.len();
        if fl == 0 {
            let is_leaf = match &self.root {
                Some(NodeData::Leaf(_)) => true,
                _ => false,
            };
            if is_leaf {
                let old_root = self.root.take().unwrap();
                let container = wrap_node(layout, old_root);
                self.root = Some(NodeData::Container(container));
                self.focus_path = vec![0];
                assert(self.focus_path@ =~= seq![0usize]);
                return true;
            }
            return false;
        }
        let fp = self.focus_path.clone();
        assert(fp@ == self.focus_path@);
        let pdepth = fl - 1;
        let ci = fp[pdepth];
        let ghost r = self@.root.unwrap();
        let ghost pp = fp@.drop_last();
        assert(fp@.subrange(0, pdepth as int) =~= pp);
        let info = match self.node_at_path(&fp, pdepth) {
            Some(NodeData::Container(c)) => {
                if ci < c.children.len() {
                    match &c.children[ci] {
                        NodeData::Leaf(_) => Some((c.layout, c.children.len())),
                        NodeData::Container(_) => None,
                    }
                } else {
                    None
                }
            },
            _ => None,
        };
        let (pl, n) = match info {
            Some(x) => x,
            None => return false,
        };
        let ghost p = node_at(r, pp).unwrap();
        proof {
            lemma_node_at_facts(r, pp);
        }
        let relayout = n == 1 && (pl == Layout::SplitH || pl == Layout::SplitV) && (layout == Layout::SplitH
            || layout == Layout::SplitV);
        if relayout {
            let parent = self.container_at_path_mut(&fp, pdepth);
            parent.layout = layout;
            proof {
                lemma_set_at(r, pp, Tree::Container(layout, p.kids(), p.focused()));
            }
            return true;
        }
        if pl == layout && (pdepth > 0 || n == 1) {
            return true;
        }
        let parent = self.container_at_path_mut(&fp, pdepth);
        let ghost before = parent.children@;
        let leaf = parent.children.remove(ci);
        let nc = wrap_node(layout, leaf);
        parent.children.insert(ci, NodeData::Container(nc));
        proof {
            let x = wrap(layout, p.kids()[ci as int]);
            assert(parent.children@ =~= before.update(ci as int, NodeData::Container(nc)));
            assert(kids_view(parent.children@) =~= p.kids().update(ci as int, x));
            lemma_update(p.kids(), ci as int, x);
            lemma_child_size(p, ci as int);
            lemma_set_at(r, pp, Tree::Container(p.layout(), p.kids().update(ci as int, x), p.focused()));
        }
        self.focus_path.push(0);
        true
    }

    /// Change the layout of the focused container (or of the container of the focused leaf).
    pub fn set_focused_layout(&mut self, layout: Layout) -> (r: bool)
        requires
            old(self).wf(),
            has_room(old(self)@, 1),
        ensures
            (final(self)@, r) == set_focused_layout_spec(old(self)@, layout),
            final(self).wf(),
    {
        broadcast use group_view_lemmas;

        let fl = self.focus_path.len();
        if fl == 0 {
            let is_leaf = match &self.root {
                Some(NodeData::Leaf(_)) => true,
                _ => false,
            };
            if is_leaf {
                let old_root = self.root.take().unwrap();
                let mut container = wrap_node(layout, old_root);
                container.set_focused_idx(0);
                self.root = Some(NodeData::Container(container));
                self.focus_path = vec![0];
                assert(self.focus_path@ =~= seq![0usize]);
                return true;
            }
        }
        let fp = self.focus_path.clone();
        assert(fp@ == self.focus_path@);
        assert(fp@.subrange(0, fl as int) =~= fp@);
        let ghost s0 = self@;
        let ghost r = self@.root.unwrap();
        let kind = match self.node_at_path(&fp, fl) {
            Some(NodeData::Leaf(_)) => Some(true),
            Some(NodeData::Container(_)) => Some(false),
            None => None,
        };
        let end = match kind {
            None => return false,
            Some(true) => {
                if fl == 0 {
                    return false;
                }
                assert(fp@.subrange(0, fl - 1) =~= fp@.drop_last());
                let parent_is_container = match self.node_at_path(&fp, fl - 1) {
                    Some(NodeData::Container(_)) => true,
                    _ => false,
                };
                if !parent_is_container {
                    return false;
                }
                fl - 1
            },
            Some(false) => fl,
        };
        let ghost q = fp@.subrange(0, end as int);
        let ghost n = node_at(r, q).unwrap();
        let container = self.container_at_path_mut(&fp, end);
        container.set_layout(layout);
        proof {
            lemma_node_at_facts(r, q);
            lemma_set_layout(n, layout);
            lemma_set_at(r, q, set_layout(n, layout));
        }
        true
    }

    /// Layout of the container holding the focused node.
    pub fn focused_layout(&self) -> (r: Option<Layout>)
        ensures
            r == focused_layout_spec(self@),
    {
        broadcast use group_view_lemmas;

        let fl = self.focus_path.len();
        let end = if fl == 0 {
            0
        } else {
            fl - 1
        };
        proof {
            if fl == 0 {
                assert(self.focus_path@.subrange(0, 0) =~= self.focus_path@);
            } else {
                assert(self.focus_path@.subrange(0, end as int) =~= self.focus_path@.drop_last());
            }
        }
        match self.node_at_path(&self.focus_path, end) {
            Some(NodeData::Container(c)) => Some(c.layout),
            _ => None,
        }
    }

    /// Layout and number of children of the container at `path`.
    pub fn container_info(&self, path: &[usize]) -> (r: Option<(Layout, usize)>)
        ensures
            match r {
                Some((l, n)) => container_info_spec(self@, path@) == Some((l, n as nat)),
                None => container_info_spec(self@, path@) is None,
            },
    {
        broadcast use group_view_lemmas;

        let p = vstd::slice::slice_to_vec(path);
        let len = p.len();
        assert(p@.subrange(0, len as int) =~= path@);
        match self.node_at_path(&p, len) {
            Some(NodeData::Container(c)) => Some((c.layout, c.children.len())),
            _ => None,
        }
    }

    /// Walking up from `path`, the deepest container with `layout` on it and the index of
    /// the child the path goes through.
    pub fn find_parent_with_layout(&self, path: Vec<usize>, layout: Layout) -> (r: Option<(Vec<usize>, usize)>)
        ensures
            match r {
                Some((p, i)) => find_parent_with_layout_spec(self@.root, path@, layout) == Some((p@, i)),
                None => find_parent_with_layout_spec(self@.root, path@, layout) is None,
            },
    {
        broadcast use group_view_lemmas;

        let mut end = path.len();
        assert(path@.subrange(0, end as int) =~= path@);
        while end > 0
            invariant
                end <= path@.len(),
                find_parent_with_layout_spec(self@.root, path@, layout) == find_parent_with_layout_spec(
                    self@.root,
                    path@.subrange(0, end as int),
                    layout,
                ),
            decreases end,
        {
            let ci = path[end - 1];
            proof {
                let q = path@.subrange(0, end as int);
                assert(q.drop_last() =~= path@.subrange(0, end - 1));
            }
            match self.node_at_path(&path, end - 1) {
                None => return None,
                Some(NodeData::Container(c)) => {
                    if c.layout == layout {
                        let mut pv = path.clone();
                        assert(pv@ == path@);
                        pv.truncate(end - 1);
                        return Some((pv, ci));
                    }
                },
                Some(NodeData::Leaf(_)) => {},
            }
            end = end - 1;
        }
        None
    }

    /// Number of root-level children (columns); a root leaf counts as one.
    pub fn root_children_len(&self) -> (r: usize)
        ensures
            r == root_children_len_spec(self@),
    {
        broadcast use group_view_lemmas;

        match &self.root {
            None => 0,
            Some(NodeData::Leaf(_)) => 1,
            Some(NodeData::Container(c)) => c.children.len(),
        }
    }

    /// The root container, if the root is a container.
    pub fn root_container(&self) -> (r: Option<&ContainerData>)
        ensures
            match r {
                Some(c) => self@.root == Some(c@),
                None => !(self@.root matches Some(Tree::Container(..))),
            },
    {
        broadcast use group_view_lemmas;

        match &self.root {
            Some(NodeData::Container(c)) => Some(c),
            _ => None,
        }
    }

    /// Index of the currently focused root child, if any.
    pub fn focused_root_index(&self) -> (r: Option<usize>)
        ensures
            r == focused_root_index_spec(self@),
    {
        broadcast use group_view_lemmas;

        match &self.root {
            None => None,
            Some(NodeData::Leaf(_)) => Some(0),
            Some(NodeData::Container(c)) => {
                if self.focus_path.len() == 0 {
                    let len = c.children.len();
                    Some(
                        if len == 0 {
                            0
                        } else if c.focused_idx < len {
                            c.focused_idx
                        } else {
                            len - 1
                        },
                    )
                } else {
                    Some(self.focus_path[0])
                }
            },
        }
    }

    /// Focus root child `idx`, descending to a leaf through focused children.
    pub fn focus_root_child(&mut self, idx: usize) -> (r: bool)
        requires
            old(self).wf(),
        ensures
            (final(self)@, r) == focus_root_child_spec(old(self)@, idx),
            final(self).wf(),
    {
        broadcast use group_view_lemmas;

        self.clear_focus_history();
        let kind = match &self.root {
            None => None,
            Some(NodeData::Leaf(_)) => Some(true),
            Some(NodeData::Container(c)) => {
                if idx >= c.children.len() {
                    None
                } else {
                    Some(false)
                }
            },
        };
        match kind {
            None => false,
            Some(true) => {
                if idx == 0 {
                    self.focus_path.clear();
                    assert(self@.focus =~= Seq::<usize>::empty());
                    true
                } else {
                    false
                }
            },
            Some(false) => {
                self.focus_path = vec![idx];
                proof {
                    assert(self@.focus =~= seq![idx]);
                    lemma_child_size_any(self@.root.unwrap());
                    lemma_focus_from_bound(self@.root, self@.focus);
                }
                self.focus_to_first_leaf_from_path();
                true
            },
        }
    }

    /// Move root child `from` to position `to`.
    #[verifier::spinoff_prover]
    pub fn move_root_child(&mut self, from: usize, to: usize) -> (r: bool)
        requires
            old(self).wf(),
        ensures
            (final(self)@, r) == move_root_child_spec(old(self)@, from, to),
            final(self).wf(),
    {
        broadcast use group_view_lemmas;

        self.clear_focus_history();
        let info = match &self.root {
            Some(NodeData::Container(c)) => Some((c.children.len(), c.focused_idx)),
            _ => None,
        };
        let (len, f) = match info {
            Some(x) => x,
            None => return false,
        };
        if from >= len || to >= len {
            return false;
        }
        let ghost r = self@.root.unwrap();
        let ghost ch = r.kids();
        let empty: Vec<usize> = Vec::new();
        assert(empty@.subrange(0, 0) =~= Seq::<usize>::empty());
        let c = self.container_at_path_mut(&empty, 0);
        let ghost before = c.children@;
        let node = c.children.remove(from);
        c.children.insert(to, node);
        proof {
            lemma_child_size_any(r);
            lemma_child_size(r, from as int);
            lemma_remove(ch, from as int);
            lemma_insert(ch.remove(from as int), to as int, ch[from as int]);
        }
        if self.focus_path.len() > 0 {
            let cur = self.focus_path[0];
            let n = if cur == from {
                to
            } else if from < cur && to >= cur {
                cur - 1
            } else if from > cur && to <= cur {
                cur + 1
            } else {
                cur
            };
            self.focus_path.set(0, n);
        } else {
            self.focus_path = vec![if f < len {
                f
            } else {
                len - 1
            }];
        }
        let d = self.focus_path[0];
        let c = self.container_at_path_mut(&empty, 0);
        c.set_focused_idx(d);
        proof {
            let f1 = if old(self)@.focus.len() > 0 {
                old(self)@.focus.update(0, shifted_index(old(self)@.focus[0], from, to))
            } else {
                seq![if f < ch.len() { f } else { (ch.len() - 1) as usize }]
            };
            assert(self@.focus =~= f1);
            let y = Tree::Container(r.layout(), ch.remove(from as int).insert(to as int, ch[from as int]), f);
            lemma_set_focused(y, d as int);
            lemma_focus_from_bound(self@.root, self@.focus);
        }
        self.focus_to_first_leaf_from_path();
        true
    }
}

// ============================================================================
// Inserting windows
// ============================================================================
impl ContainerTree {
    /// Makes the root a container and inserts `node` among its children at `index`.
    #[verifier::spinoff_prover]
    fn insert_node_at_root(&mut self, index: usize, node: NodeData, focus: bool)
        requires
            old(self).wf(),
            node_wf(node@),
            root_size(old(self)@.root) + size(node@) + 1 <= MAX_TREE_NODES,
        ensures
            final(self)@ == insert_at_root_spec(old(self)@, index, node@, focus),
            final(self).wf(),
    {
        broadcast use group_view_lemmas;

        let ghost x = node@;
        self.ensure_root_container();
        let ghost s1 = self@;
        let ghost r1 = s1.root.unwrap();
        let (len, pf) = match &self.root {
            Some(NodeData::Container(c)) => (c.children.len(), c.focused_idx),
            _ => {
                assert(false);
                (0, 0)
            },
        };
        let idx = if index < len {
            index
        } else {
            len
        };
        proof {
            lemma_child_size_any(r1);
            lemma_size_pos(x);
            lemma_insert_child(r1, idx as int, x);
            assert(local_wf(r1));
        }
        let empty: Vec<usize> = Vec::new();
        assert(empty@.subrange(0, 0) =~= Seq::<usize>::empty());
        let c = self.container_at_path_mut(&empty, 0);
        c.insert_child(idx, node);
        let shift = !focus && idx <= pf && c.children.len() > 1;
        if focus {
            c.set_focused_idx(idx);
        } else if shift {
            c.set_focused_idx(pf + 1);
        }
        proof {
            let c1 = insert_child(r1, idx as int, x);
            lemma_set_focused(c1, idx as int);
            lemma_set_focused(c1, pf + 1);
            lemma_child_size_any(self@.root.unwrap());
        }
        if focus {
            self.focus_path = vec![idx];
            proof {
                assert(self@.focus =~= seq![idx]);
                lemma_focus_from_bound(self@.root, self@.focus);
            }
            self.focus_to_first_leaf_from_path();
        } else if shift {
            if self.focus_path.len() > 0 {
                let first = self.focus_path[0];
                if idx <= first {
                    self.focus_path.set(0, first + 1);
                }
            }
        } else if self.focus_path.len() == 0 {
            let i = self.focused_root_index().unwrap();
            self.focus_path = vec![i];
            proof {
                assert(self@.focus =~= seq![i]);
                lemma_focus_from_bound(self@.root, self@.focus);
            }
            self.focus_to_first_leaf_from_path();
        }
    }

    /// Insert a window as root child `index` (clamped to the end).
    pub fn insert_leaf_at(&mut self, index: usize, id: u64, focus: bool)
        requires
            old(self).wf(),
            has_room(old(self)@, 2),
        ensures
            final(self)@ == insert_at_root_spec(old(self)@, index, Tree::Leaf(id), focus),
            final(self).wf(),
    {
        broadcast use group_view_lemmas;

        self.insert_node_at_root(index, NodeData::Leaf(id), focus);
    }

    /// Insert a window as the last root child.
    pub fn append_leaf(&mut self, id: u64, focus: bool)
        requires
            old(self).wf(),
            has_room(old(self)@, 2),
        ensures
            final(self)@ == insert_at_root_spec(
                old(self)@,
                root_children_len_spec(old(self)@) as usize,
                Tree::Leaf(id),
                focus,
            ),
            final(self).wf(),
    {
        let n = self.root_children_len();
        self.insert_leaf_at(n, id, focus);
    }

    /// Insert windows at root child `index`: a single window as a leaf, several as a
    /// vertical split focused on the first.
    pub fn insert_tiles_at_root(&mut self, index: usize, ids: Vec<u64>, focus: bool)
        requires
            old(self).wf(),
            has_room(old(self)@, ids@.len() + 2),
        ensures
            final(self)@ == if ids@.len() == 0 {
                old(self)@
            } else if ids@.len() == 1 {
                insert_at_root_spec(old(self)@, index, Tree::Leaf(ids@[0]), focus)
            } else {
                insert_at_root_spec(old(self)@, index, column_of(ids@), focus)
            },
            final(self).wf(),
    {
        broadcast use group_view_lemmas;

        let n = ids.len();
        if n == 0 {
            return;
        }
        if n == 1 {
            self.insert_leaf_at(index, ids[0], focus);
            return;
        }
        let mut container = ContainerData::new(Layout::SplitV);
        let mut i: usize = 0;
        assert(Seq::new(0nat, |k: int| Tree::Leaf(ids@[k])) =~= Seq::<Tree>::empty());
        while i < n
            invariant
                i <= n == ids@.len(),
                container@ == Tree::Container(
                    Layout::SplitV,
                    Seq::new(i as nat, |k: int| Tree::Leaf(ids@[k])),
                    0,
                ),
                node_wf(container@),
                size(container@) == i + 1,
            decreases n - i,
        {
            let ghost before = container@;
            container.add_child(NodeData::Leaf(ids[i]));
            proof {
                lemma_insert(before.kids(), i as int, Tree::Leaf(ids@[i as int]));
                assert(before.kids().insert(i as int, Tree::Leaf(ids@[i as int])) =~= Seq::new(
                    (i + 1) as nat,
                    |k: int| Tree::Leaf(ids@[k]),
                ));
            }
            i = i + 1;
        }
        container.set_focused_idx(0);
        assert(container@ == column_of(ids@));
        self.insert_node_at_root(index, NodeData::Container(container), focus);
    }

    /// Insert a window right after the window `after` (appended at the root when `after` is
    /// not in the tree).
    #[verifier::spinoff_prover]
    pub fn insert_leaf_after(&mut self, after: u64, id: u64, focus: bool) -> (r: bool)
        requires
            old(self).wf(),
            has_room(old(self)@, 2),
        ensures
            (final(self)@, r) == insert_leaf_after_spec(old(self)@, after, id, focus),
            final(self).wf(),
    {
        broadcast use group_view_lemmas;

        let path = match self.find_window(after) {
            Some(p) => p,
            None => {
                self.append_leaf(id, focus);
                return true;
            },
        };
        let plen = path.len();
        if plen == 0 {
            self.append_leaf(id, focus);
            return true;
        }
        let ghost r = self@.root.unwrap();
        let ghost s0 = self@;
        let pdepth = plen - 1;
        let ci = path[pdepth];
        let ghost pp = path@.drop_last();
        proof {
            lemma_find_valid(r, after);
            lemma_node_at_last(r, path@);
            lemma_node_at_facts(r, pp);
            assert(path@.subrange(0, pdepth as int) =~= pp);
        }
        proof {
            lemma_node_at_facts(r, path@);
        }
        let prev = match self.node_at_path(&path, pdepth) {
            Some(NodeData::Container(c)) => c.focused_idx,
            _ => {
                assert(false);
                0
            },
        };
        let ins = ci + 1;
        let ghost p = node_at(r, pp).unwrap();
        let ghost p1 = insert_child(p, ins as int, Tree::Leaf(id));
        proof {
            lemma_child_size_any(p);
            lemma_insert_child(p, ins as int, Tree::Leaf(id));
            lemma_set_focused(p1, ins as int);
            lemma_set_focused(p1, prev + 1);
            lemma_set_at(r, pp, p1);
            lemma_set_at(r, pp, set_focused(p1, ins as int));
            lemma_set_at(r, pp, set_focused(p1, prev + 1));
            assert(local_wf(p));
        }
        let parent = self.container_at_path_mut(&path, pdepth);
        parent.insert_child(ins, NodeData::Leaf(id));
        if focus {
            parent.set_focused_idx(ins);
            let mut f = path.clone();
            assert(f@ == path@);
            f.truncate(pdepth);
            f.push(ins);
            self.focus_path = f;
            proof {
                assert(self@.focus =~= pp.push(ins));
                assert forall|i: int| 0 <= i < self@.focus.len() implies #[trigger] self@.focus[i] <= root_size(self@.root) by {
                    lemma_node_at_facts(r, path@);
                    if i < pp.len() {
                        assert(self@.focus[i] == path@[i]);
                    }
                }
                lemma_focus_from_bound(self@.root, self@.focus);
            }
            self.focus_to_first_leaf_from_path();
        } else if prev >= ins {
            parent.set_focused_idx(prev + 1);
            if self.focus_path.len() > pdepth {
                let x = self.focus_path[pdepth];
                if ins <= x {
                    self.focus_path.set(pdepth, x + 1);
                }
            }
        }
        true
    }

    /// Insert a window into root child `column` at `tile_idx` (the end when absent); a leaf
    /// column is first wrapped in a vertical split.
    #[verifier::spinoff_prover]
    #[verifier::rlimit(80)]
    pub fn insert_leaf_in_column(&mut self, column: usize, tile_idx: Option<usize>, id: u64, focus: bool) -> (r: bool)
        requires
            old(self).wf(),
            has_room(old(self)@, 3),
        ensures
            (final(self)@, r) == insert_leaf_in_column_spec(old(self)@, column, tile_idx, id, focus),
            final(self).wf(),
    {
        broadcast use group_view_lemmas;

        self.ensure_root_container();
        let ghost s1 = self@;
        let ghost r1 = s1.root.unwrap();
        let ghost ch = r1.kids();
        let (len, col_is_leaf) = match &self.root {
            Some(NodeData::Container(c)) => {
                let len = c.children.len();
                let is_leaf = if column < len {
                    match &c.children[column] {
                        NodeData::Leaf(_) => true,
                        NodeData::Container(_) => false,
                    }
                } else {
                    false
                };
                (len, is_leaf)
            },
            _ => {
                assert(false);
                (0, false)
            },
        };
        if column >= len {
            return false;
        }
        proof {
            lemma_child_size_any(r1);
            lemma_child_size(r1, column as int);
        }
        let empty: Vec<usize> = Vec::new();
        assert(empty@.subrange(0, 0) =~= Seq::<usize>::empty());
        let ghost col0 = ch[column as int];
        let ghost col = if col0 is Leaf {
            wrap(Layout::SplitV, col0)
        } else {
            col0
        };
        let root = self.container_at_path_mut(&empty, 0);
        if col_is_leaf {
            let ghost before = root.children@;
            let existing = root.children.remove(column);
            assert(existing@ == col0);
            let mut wrapped = wrap_node(Layout::SplitV, existing);
            wrapped.set_focused_idx(0);
            assert(wrapped@ == col);
            root.children.insert(column, NodeData::Container(wrapped));
            proof {
                assert(root.children@ =~= before.update(column as int, NodeData::Container(wrapped)));
            }
        } else {
            assert(ch.update(column as int, col) =~= ch);
        }
        assert(root@ == Tree::Container(r1.layout(), ch.update(column as int, col), r1.focused()));
        let n = match &root.children[column] {
            NodeData::Container(cc) => cc.children.len(),
            NodeData::Leaf(_) => {
                assert(false);
                0
            },
        };
        let want = match tile_idx {
            Some(t) => t,
            None => n,
        };
        let at = if want < n {
            want
        } else {
            n
        };
        root.insert_into_child(column, at, id, focus);
        root.set_focused_idx(column);
        proof {
            let col1 = insert_child(col, at as int, Tree::Leaf(id));
            let col2 = if focus {
                set_focused(col1, at as int)
            } else {
                col1
            };
            assert(ch.update(column as int, col).update(column as int, col2) =~= ch.update(column as int, col2));
            lemma_update(ch, column as int, col);
            lemma_child_size_any(col);
            lemma_insert_child(col, at as int, Tree::Leaf(id));
            lemma_set_focused(col1, at as int);
            if col0 is Leaf {
                lemma_single(col0);
            }
            lemma_update(ch, column as int, col2);
            let y = Tree::Container(r1.layout(), ch.update(column as int, col2), r1.focused());
            lemma_set_focused(y, column as int);
            assert(local_wf(r1));
            lemma_child_size_any(col2);
        }
        if focus {
            self.focus_path = vec![column, at];
            proof {
                let r2 = self@.root.unwrap();
                lemma_child_size_any(r2);
                lemma_child_size(r2, column as int);
                lemma_child_size_any(r2.kids()[column as int]);
                assert(self@.focus =~= seq![column, at]);
                lemma_focus_from_bound(self@.root, self@.focus);
            }
            self.focus_to_first_leaf_from_path();
        } else if self.focus_path.len() > 0 && self.focus_path[0] == column {
            if self.focus_path.len() > 1 {
                let second = self.focus_path[1];
                if at <= second {
                    self.focus_path.set(1, second + 1);
                }
            }
        } else if self.focus_path.len() == 0 {
            self.focus_path = vec![column];
            proof {
                assert(self@.focus =~= seq![column]);
                lemma_focus_from_bound(self@.root, self@.focus);
            }
            self.focus_to_first_leaf_from_path();
        }
        true
    }
}

// ============================================================================
// Leaf paths
// ============================================================================
pub open spec fn paths_view(v: Seq<Vec<usize>>) -> Seq<Seq<usize>> {
    v.map_values(|x: Vec<usize>| x@)
}

/// Appends to `results` the paths of the leaves under `n`, each prefixed by `path`.
#[verifier::loop_isolation(false)]
fn collect_leaf_paths(n: &NodeData, path: &mut Vec<usize>, results: &mut Vec<Vec<usize>>)
    ensures
        final(path)@ == old(path)@,
        paths_view(final(results)@) == paths_view(old(results)@) + leaf_paths(n@).map_values(
            |p: Seq<usize>| old(path)@ + p,
        ),
    decreases n,
{
    broadcast use group_view_lemmas;

    match n {
        NodeData::Leaf(_) => {
            let ghost before = results@;
            let c = path.clone();
            assert(c@ == path@);
            results.push(c);
            proof {
                assert(old(path)@ + Seq::<usize>::empty() =~= old(path)@);
                assert(paths_view(results@) =~= paths_view(before) + seq![Seq::<usize>::empty()].map_values(
                    |p: Seq<usize>| old(path)@ + p,
                ));
            }
        },
        NodeData::Container(c) => {
            let ghost ch = kids_view(c.children@);
            let ghost f = |p: Seq<usize>| old(path)@ + p;
            let mut i: usize = 0;
            assert(paths_view(results@) =~= paths_view(old(results)@) + leaf_paths_upto(ch, 0).map_values(f));
            while i < c.children.len()
                invariant
                    *n == NodeData::Container(*c),
                    i <= c.children@.len(),
                    ch == kids_view(c.children@),
                    path@ == old(path)@,
                    paths_view(results@) == paths_view(old(results)@) + leaf_paths_upto(ch, i as int).map_values(f),
                decreases c.children@.len() - i,
            {
                let ghost before = results@;
                path.push(i);
                let child = &c.children[i];
                proof {
                    vstd::std_specs::vec::axiom_vec_index_decreases(c.children, i as int);
                }
                collect_leaf_paths(child, path, results);
                path.pop();
                proof {
                    assert(path@ =~= old(path)@);
                    let g = |p: Seq<usize>| old(path)@.push(i) + p;
                    let h = |p: Seq<usize>| seq![i] + p;
                    let lp = leaf_paths(ch[i as int]);
                    assert(lp.map_values(g) =~= lp.map_values(h).map_values(f)) by {
                        assert forall|k: int| 0 <= k < lp.len() implies lp.map_values(g)[k] == lp.map_values(h).map_values(f)[k] by {
                            assert(old(path)@.push(i) + lp[k] =~= old(path)@ + (seq![i] + lp[k]));
                        }
                    }
                    assert(leaf_paths_upto(ch, i + 1) == leaf_paths_upto(ch, i as int) + lp.map_values(h));
                    assert((leaf_paths_upto(ch, i as int) + lp.map_values(h)).map_values(f) =~= leaf_paths_upto(
                        ch,
                        i as int,
                    ).map_values(f) + lp.map_values(h).map_values(f));
                    assert(paths_view(results@) =~= paths_view(before) + lp.map_values(g));
                }
                i = i + 1;
            }
        },
    }
}

impl ContainerTree {
    /// Paths of the leaves under the node at `prefix`, depth-first.
    pub fn leaf_paths_under(&self, prefix: &[usize]) -> (r: Vec<Vec<usize>>)
        ensures
            paths_view(r@) == leaf_paths_under_spec(self@.root, prefix@),
    {
        let mut results: Vec<Vec<usize>> = Vec::new();
        let mut path = vstd::slice::slice_to_vec(prefix);
        let len = path.len();
        assert(path@.subrange(0, len as int) =~= prefix@);
        match self.node_at_path(&path, len) {
            Some(n) => {
                collect_leaf_paths(n, &mut path, &mut results);
                assert(paths_view(Seq::<Vec<usize>>::empty()) =~= Seq::<Seq<usize>>::empty());
                assert(Seq::<Seq<usize>>::empty() + leaf_paths(n@).map_values(|p: Seq<usize>| prefix@ + p)
                    =~= leaf_paths(n@).map_values(|p: Seq<usize>| prefix@ + p));
            },
            None => {
                assert(paths_view(results@) =~= Seq::<Seq<usize>>::empty());
            },
        }
        results
    }

    /// Focus the `leaf_idx`-th (1-based) leaf of root child `child_idx`.
    pub fn focus_leaf_in_root_child(&mut self, child_idx: usize, leaf_idx: usize) -> (r: bool)
        requires
            old(self).wf(),
        ensures
            (final(self)@, r) == focus_leaf_in_root_child_spec(old(self)@, child_idx, leaf_idx),
            final(self).wf(),
    {
        self.clear_focus_history();
        if leaf_idx == 0 {
            return false;
        }
        let prefix = [child_idx];
        let mut paths = self.leaf_paths_under(&prefix);
        assert(prefix@ =~= seq![child_idx]);
        if paths.len() == 0 || leaf_idx > paths.len() {
            return false;
        }
        let ghost all = paths_view(paths@);
        let path = paths.remove(leaf_idx - 1);
        proof {
            assert(path@ == all[leaf_idx - 1]);
            lemma_focus_path_is_leaf_path(self@.root, seq![child_idx], all, leaf_idx - 1);
        }
        self.focus_path = path;
        true
    }

    /// Focus the first leaf in the currently focused root child.
    pub fn focus_top_in_current_column(&mut self) -> (r: bool)
        requires
            old(self).wf(),
        ensures
            (final(self)@, r) == focus_top_spec(old(self)@),
            final(self).wf(),
    {
        let idx = match self.focused_root_index() {
            Some(i) => i,
            None => return false,
        };
        self.focus_leaf_in_root_child(idx, 1)
    }

    /// Focus the last leaf in the currently focused root child.
    pub fn focus_bottom_in_current_column(&mut self) -> (r: bool)
        requires
            old(self).wf(),
        ensures
            (final(self)@, r) == focus_bottom_spec(old(self)@),
            final(self).wf(),
    {
        let idx = match self.focused_root_index() {
            Some(i) => i,
            None => return false,
        };
        let prefix = [idx];
        let paths = self.leaf_paths_under(&prefix);
        assert(prefix@ =~= seq![idx]);
        let n = paths.len();
        if n > 0 {
            let ghost all = paths_view(paths@);
            let path = paths[n - 1].clone();
            proof {
                assert(path@ == all[n - 1]);
                lemma_focus_path_is_leaf_path(self@.root, seq![idx], all, n - 1);
            }
            self.focus_path = path;
            true
        } else {
            false
        }
    }
}

/// A listed leaf path is within the tree, so a focus on it keeps the state well formed.
proof fn lemma_focus_path_is_leaf_path(root: Option<Tree>, prefix: Seq<usize>, all: Seq<Seq<usize>>, k: int)
    requires
        all == leaf_paths_under_spec(root, prefix),
        0 <= k < all.len(),
        root_size(root) <= MAX_TREE_NODES,
    ensures
        forall|i: int| 0 <= i < all[k].len() ==> #[trigger] all[k][i] < root_size(root),
{
    let t = root.unwrap();
    let n = node_at(t, prefix).unwrap();
    lemma_node_at_facts(t, prefix);
    lemma_leaf_paths_valid(n);
    let q = leaf_paths(n)[k];
    assert(all[k] == prefix + q);
    lemma_node_at_append(t, prefix, q);
    lemma_node_at_facts(t, prefix + q);
}

// ============================================================================
// Detached subtrees
// ============================================================================
/// Appends the window ids of the leaves under `n`, depth-first.
#[verifier::loop_isolation(false)]
fn collect_detached_windows(n: &DetachedNode, out: &mut Vec<u64>)
    ensures
        final(out)@ == old(out)@ + leaves(n@),
    decreases n,
{
    broadcast use group_view_lemmas;

    match n {
        DetachedNode::Leaf(x) => {
            out.push(*x);
            assert(old(out)@.push(*x) =~= old(out)@ + seq![*x]);
        },
        DetachedNode::Container(c) => {
            let ghost ch = detached_kids_view(c.children@);
            let mut i: usize = 0;
            assert(old(out)@ + Seq::<u64>::empty() =~= old(out)@);
            while i < c.children.len()
                invariant
                    *n == DetachedNode::Container(*c),
                    i <= c.children@.len(),
                    ch == detached_kids_view(c.children@),
                    out@ == old(out)@ + leaves_upto(ch, i as int),
                decreases c.children@.len() - i,
            {
                let ghost before = out@;
                let child = &c.children[i];
                proof {
                    vstd::std_specs::vec::axiom_vec_index_decreases(c.children, i as int);
                }
                collect_detached_windows(child, out);
                proof {
                    assert(before + leaves(ch[i as int]) =~= old(out)@ + leaves_upto(ch, i + 1));
                }
                i = i + 1;
            }
        },
    }
}

/// A detached copy of the subtree `n`.
#[verifier::loop_isolation(false)]
#[verifier::spinoff_prover]
fn detach(n: &NodeData) -> (r: DetachedNode)
    ensures
        node_wf(n@) ==> r@ == n@,
    decreases n,
{
    broadcast use group_view_lemmas;

    match n {
        NodeData::Leaf(x) => DetachedNode::Leaf(*x),
        NodeData::Container(c) => {
            let ghost ch = kids_view(c.children@);
            let mut out: Vec<DetachedNode> = Vec::new();
            let mut i: usize = 0;
            while i < c.children.len()
                invariant
                    *n == NodeData::Container(*c),
                    i <= c.children@.len(),
                    ch == kids_view(c.children@),
                    out@.len() == i,
                    node_wf(n@) ==> detached_kids_view(out@) == ch.subrange(0, i as int),
                decreases c.children@.len() - i,
            {
                let child = &c.children[i];
                proof {
                    vstd::std_specs::vec::axiom_vec_index_decreases(c.children, i as int);
                    if node_wf(n@) {
                        lemma_child_size(n@, i as int);
                    }
                }
                let d = detach(child);
                let ghost before = out@;
                out.push(d);
                proof {
                    if node_wf(n@) {
                        assert(detached_kids_view(out@) =~= ch.subrange(0, i + 1));
                    }
                }
                i = i + 1;
            }
            proof {
                if node_wf(n@) {
                    assert(ch.subrange(0, ch.len() as int) =~= ch);
                }
            }
            DetachedNode::Container(DetachedContainer::from_parts(c.layout, out, c.focused_idx))
        },
    }
}

/// A tree node built from the detached subtree `d`; focused indices past the end are moved
/// to the last child.
#[verifier::loop_isolation(false)]
fn attach(d: &DetachedNode) -> (r: NodeData)
    ensures
        node_wf(d@) ==> r@ == d@,
    decreases d,
{
    broadcast use group_view_lemmas;

    match d {
        DetachedNode::Leaf(x) => NodeData::Leaf(*x),
        DetachedNode::Container(c) => {
            let ghost ch = detached_kids_view(c.children@);
            let mut out: Vec<NodeData> = Vec::new();
            let mut i: usize = 0;
            while i < c.children.len()
                invariant
                    *d == DetachedNode::Container(*c),
                    i <= c.children@.len(),
                    ch == detached_kids_view(c.children@),
                    out@.len() == i,
                    node_wf(d@) ==> kids_view(out@) == ch.subrange(0, i as int),
                decreases c.children@.len() - i,
            {
                let child = &c.children[i];
                proof {
                    vstd::std_specs::vec::axiom_vec_index_decreases(c.children, i as int);
                    if node_wf(d@) {
                        lemma_child_size(d@, i as int);
                    }
                }
                let x = attach(child);
                out.push(x);
                proof {
                    if node_wf(d@) {
                        assert(kids_view(out@) =~= ch.subrange(0, i + 1));
                    }
                }
                i = i + 1;
            }
            let len = out.len();
            let f = if c.focused_idx < len {
                c.focused_idx
            } else if len == 0 {
                0
            } else {
                len - 1
            };
            proof {
                if node_wf(d@) {
                    assert(ch.subrange(0, ch.len() as int) =~= ch);
                }
            }
            NodeData::Container(ContainerData { layout: c.layout, children: out, focused_idx: f })
        },
    }
}

impl DetachedNode {
    /// Window ids of the leaves, depth-first.
    pub fn tiles(&self) -> (r: Vec<u64>)
        ensures
            r@ == leaves(self@),
    {
        let mut out: Vec<u64> = Vec::new();
        collect_detached_windows(self, &mut out);
        assert(Seq::<u64>::empty() + leaves(self@) =~= leaves(self@));
        out
    }

    /// Whether a leaf of the subtree holds `window_id`.
    pub fn contains_window(&self, window_id: u64) -> (r: bool)
        ensures
            r == leaves(self@).contains(window_id),
    {
        let ids = self.tiles();
        let mut i: usize = 0;
        while i < ids.len()
            invariant
                i <= ids@.len(),
                ids@ == leaves(self@),
                forall|k: int| 0 <= k < i ==> ids@[k] != window_id,
            decreases ids@.len() - i,
        {
            if ids[i] == window_id {
                return true;
            }
            i = i + 1;
        }
        false
    }

    /// The window ids of the leaves, depth-first, consuming the subtree.
    pub fn into_tiles(self) -> (r: Vec<u64>)
        ensures
            r@ == leaves(self@),
    {
        self.tiles()
    }
}

impl DetachedContainer {
    /// A container with `layout` holding `children`, focused on the first.
    pub fn new(layout: Layout, children: Vec<DetachedNode>) -> (r: Self)
        ensures
            r@ == Tree::Container(layout, detached_kids_view(children@), 0),
    {
        broadcast use group_view_lemmas;

        Self { layout, children, focused_idx: 0 }
    }

    /// A container from its parts; a focused index past the end moves to the last child.
    pub(crate) fn from_parts(layout: Layout, children: Vec<DetachedNode>, focused_idx: usize) -> (r: Self)
        ensures
            r@ == Tree::Container(
                layout,
                detached_kids_view(children@),
                if focused_idx < children@.len() {
                    focused_idx
                } else if children@.len() == 0 {
                    0
                } else {
                    (children@.len() - 1) as usize
                },
            ),
    {
        broadcast use group_view_lemmas;

        let len = children.len();
        let f = if focused_idx >= len {
            if len == 0 {
                0
            } else {
                len - 1
            }
        } else {
            focused_idx
        };
        Self { layout, children, focused_idx: f }
    }
}

impl ContainerTree {
    /// Remove and return root child `idx` as a detached subtree.
    pub fn take_root_child_subtree(&mut self, idx: usize) -> (r: Option<DetachedNode>)
        requires
            old(self).wf(),
        ensures
            final(self)@ == take_root_child_spec(old(self)@, idx).0,
            match r {
                Some(d) => take_root_child_spec(old(self)@, idx).1 == Some(d@) && d.wf(),
                None => take_root_child_spec(old(self)@, idx).1 is None,
            },
            final(self).wf(),
    {
        broadcast use group_view_lemmas;

        let kind = match &self.root {
            None => None,
            Some(NodeData::Leaf(_)) => Some(true),
            Some(NodeData::Container(c)) => {
                if idx >= c.children.len() {
                    None
                } else {
                    Some(false)
                }
            },
        };
        let ghost r0 = self@.root;
        match kind {
            None => return None,
            Some(true) => {
                if idx != 0 {
                    return None;
                }
                let d = match &self.root {
                    Some(n) => detach(n),
                    None => {
                        assert(false);
                        DetachedNode::Leaf(0)
                    },
                };
                self.focus_path.clear();
                self.root = None;
                assert(self@.focus =~= Seq::<usize>::empty());
                return Some(d);
            },
            Some(false) => {},
        }
        let ghost t = r0.unwrap();
        proof {
            lemma_child_size(t, idx as int);
            lemma_child_size_any(t);
            lemma_remove_child(t, idx as int);
        }
        let d = match &self.root {
            Some(NodeData::Container(c)) => detach(&c.children[idx]),
            _ => {
                assert(false);
                DetachedNode::Leaf(0)
            },
        };
        let empty: Vec<usize> = Vec::new();
        assert(empty@.subrange(0, 0) =~= Seq::<usize>::empty());
        let root = self.container_at_path_mut(&empty, 0);
        root.remove_child(idx);
        let remaining = root.children.len();
        if remaining == 0 {
            self.root = None;
            self.focus_path.clear();
            assert(self@.focus =~= Seq::<usize>::empty());
            return Some(d);
        }
        let ni = if idx < remaining - 1 {
            idx
        } else {
            remaining - 1
        };
        root.set_focused_idx(ni);
        self.focus_path = vec![ni];
        proof {
            let r2 = self@.root.unwrap();
            lemma_set_focused(remove_child(t, idx as int), ni as int);
            lemma_child_size_any(r2);
            assert(self@.focus =~= seq![ni]);
            lemma_focus_from_bound(self@.root, self@.focus);
        }
        self.focus_to_first_leaf_from_path();
        Some(d)
    }

    /// Remove root child `idx` and return the window ids of its leaves.
    pub fn take_root_child_tiles(&mut self, idx: usize) -> (r: Option<Vec<u64>>)
        requires
            old(self).wf(),
        ensures
            final(self)@ == take_root_child_spec(old(self)@, idx).0,
            match r {
                Some(ids) => take_root_child_spec(old(self)@, idx).1 matches Some(t) && ids@ == leaves(t),
                None => take_root_child_spec(old(self)@, idx).1 is None,
            },
            final(self).wf(),
    {
        match self.take_root_child_subtree(idx) {
            Some(d) => Some(d.into_tiles()),
            None => None,
        }
    }

    /// Insert a detached subtree as root child `index`.
    pub fn insert_subtree_at_root(&mut self, index: usize, subtree: DetachedNode, focus: bool)
        requires
            old(self).wf(),
            subtree.wf(),
            root_size(old(self)@.root) + size(subtree@) + 1 <= MAX_TREE_NODES,
        ensures
            final(self)@ == insert_at_root_spec(old(self)@, index, subtree@, focus),
            final(self).wf(),
    {
        let node = attach(&subtree);
        self.insert_node_at_root(index, node, focus);
    }
}

// ============================================================================
// Small helpers
// ============================================================================
impl Default for Layout {
    fn default() -> (r: Self)
        ensures
            r == Layout::SplitH,
    {
        Layout::SplitH
    }
}

impl Direction {
    pub open spec fn spec_opposite(self) -> Direction {
        match self {
            Direction::Left => Direction::Right,
            Direction::Right => Direction::Left,
            Direction::Up => Direction::Down,
            Direction::Down => Direction::Up,
        }
    }

    /// Get the opposite direction
    pub fn opposite(self) -> (r: Self)
        ensures
            r == self.spec_opposite(),
    {
        match self {
            Direction::Left => Direction::Right,
            Direction::Right => Direction::Left,
            Direction::Up => Direction::Down,
            Direction::Down => Direction::Up,
        }
    }

    /// Check if direction is horizontal
    pub fn is_horizontal(self) -> (r: bool)
        ensures
            r == (self == Direction::Left || self == Direction::Right),
    {
        match self {
            Direction::Left | Direction::Right => true,
            _ => false,
        }
    }

    /// Check if direction is vertical
    pub fn is_vertical(self) -> (r: bool)
        ensures
            r == (self == Direction::Up || self == Direction::Down),
    {
        match self {
            Direction::Up | Direction::Down => true,
            _ => false,
        }
    }
}

/// The opposite of the opposite direction is the direction itself; a direction and its
/// opposite lie on the same axis, and every direction is either horizontal or vertical.
pub proof fn law_direction_opposite(d: Direction)
    ensures
        d.spec_opposite().spec_opposite() == d,
        d.spec_opposite() != d,
        (d == Direction::Left || d == Direction::Right) == (d.spec_opposite() == Direction::Left
            || d.spec_opposite() == Direction::Right),
        (d == Direction::Left || d == Direction::Right) != (d == Direction::Up || d == Direction::Down),
{
}

/// Name of a layout.
pub fn layout_label(layout: Layout) -> (r: &'static str)
    ensures
        r@ == match layout {
            Layout::SplitH => "SplitH"@,
            Layout::SplitV => "SplitV"@,
            Layout::Tabbed => "Tabbed"@,
            Layout::Stacked => "Stacked"@,
        },
{
    match layout {
        Layout::SplitH => "SplitH",
        Layout::SplitV => "SplitV",
        Layout::Tabbed => "Tabbed",
        Layout::Stacked => "Stacked",
    }
}

// ============================================================================
// Command targets
// ============================================================================
/// How the root node participates in command handling.
#[derive(Debug, Clone, Copy, PartialEq, Eq, Structural)]
pub enum RootPolicy {
    /// The root is a workspace implementation detail; commands at that level operate through
    /// the workspace context.
    ImplicitWorkspace,
    /// The root is an addressable container, as in the floating layer.
    MaterialContainer,
}

/// Resolved target for commands that may operate on a workspace, a container, or a leaf
/// (the latter two by their path from the root).
#[derive(Debug, Clone, PartialEq, Eq)]
pub enum TreeCommandTarget {
    Workspace,
    Container(Vec<usize>),
    Leaf(Vec<usize>),
}

/// The command target of a tree state: the selected container (the workspace when it is
/// the root under `ImplicitWorkspace`), else the focused leaf, else the workspace.
pub enum CommandTargetView {
    Workspace,
    Container(Seq<usize>),
    Leaf(Seq<usize>),
}

pub open spec fn command_target_spec(s: TreeState, policy: RootPolicy) -> CommandTargetView {
    match root_node_at(s.root, s.focus) {
        Some(Tree::Container(..)) => if s.focus.len() == 0 && policy == RootPolicy::ImplicitWorkspace {
            CommandTargetView::Workspace
        } else {
            CommandTargetView::Container(s.focus)
        },
        Some(Tree::Leaf(_)) => CommandTargetView::Leaf(s.focus),
        None => CommandTargetView::Workspace,
    }
}

impl TreeCommandTarget {
    pub open spec fn view(&self) -> CommandTargetView {
        match self {
            TreeCommandTarget::Workspace => CommandTargetView::Workspace,
            TreeCommandTarget::Container(p) => CommandTargetView::Container(p@),
            TreeCommandTarget::Leaf(p) => CommandTargetView::Leaf(p@),
        }
    }
}

impl ContainerTree {
    /// The target of a command: the focused node when it is a container (the workspace for
    /// the root under `ImplicitWorkspace`), the focused leaf, or the workspace.
    pub fn command_target(&self, root_policy: RootPolicy) -> (r: TreeCommandTarget)
        ensures
            r@ == command_target_spec(self@, root_policy),
    {
        broadcast use group_view_lemmas;

        let len = self.focus_path.len();
        assert(self.focus_path@.subrange(0, len as int) =~= self.focus_path@);
        let kind = match self.node_at_path(&self.focus_path, len) {
            Some(NodeData::Container(_)) => Some(false),
            Some(NodeData::Leaf(_)) => Some(true),
            None => None,
        };
        match kind {
            Some(false) => {
                if len == 0 && root_policy == RootPolicy::ImplicitWorkspace {
                    TreeCommandTarget::Workspace
                } else {
                    let p = self.focus_path.clone();
                    assert(p@ == self.focus_path@);
                    TreeCommandTarget::Container(p)
                }
            },
            Some(true) => {
                let p = self.focus_path.clone();
                assert(p@ == self.focus_path@);
                TreeCommandTarget::Leaf(p)
            },
            None => TreeCommandTarget::Workspace,
        }
    }
}

// ============================================================================
// Layout tree
// ============================================================================
/// The windows under the node at `path`, depth-first (none when `path` names no node).
pub open spec fn windows_under(root: Option<Tree>, path: Seq<usize>) -> Seq<u64> {
    match root_node_at(root, path) {
        Some(n) => leaves(n),
        None => Seq::empty(),
    }
}

/// A node of the tree as reported to clients: a container's layout or a leaf's window,
/// whether it is the focused node, and its children.
#[derive(Debug)]
pub struct LayoutTreeNode {
    pub layout: Option<Layout>,
    pub window_id: Option<u64>,
    pub focused: bool,
    pub children: Vec<LayoutTreeNode>,
}

pub struct LayoutTreeView {
    pub layout: Option<Layout>,
    pub window_id: Option<u64>,
    pub focused: bool,
    pub children: Seq<LayoutTreeView>,
}

impl LayoutTreeNode {
    pub closed spec fn view(&self) -> LayoutTreeView
        decreases self,
    {
        LayoutTreeView {
            layout: self.layout,
            window_id: self.window_id,
            focused: self.focused,
            children: Seq::new(
                self.children@.len(),
                |i: int|
                    if 0 <= i < self.children@.len() {
                        self.children@[i].view()
                    } else {
                        LayoutTreeView { layout: None, window_id: None, focused: false, children: Seq::empty() }
                    },
            ),
        }
    }
}

pub broadcast proof fn lemma_layout_node_view(n: LayoutTreeNode)
    ensures
        #[trigger] n@ == (LayoutTreeView {
            layout: n.layout,
            window_id: n.window_id,
            focused: n.focused,
            children: Seq::new(n.children@.len(), |i: int| n.children@[i]@),
        }),
{
    assert(n@.children =~= Seq::new(n.children@.len(), |i: int| n.children@[i]@));
}

/// The report of subtree `t` at `path`; `focused` is the path of the focused node, if the
/// focus path names a node.
pub open spec fn layout_view(t: Tree, path: Seq<usize>, focused: Option<Seq<usize>>) -> LayoutTreeView
    decreases t,
{
    match t {
        Tree::Leaf(id) => LayoutTreeView {
            layout: None,
            window_id: Some(id),
            focused: focused == Some(path),
            children: Seq::empty(),
        },
        Tree::Container(l, ch, _) => LayoutTreeView {
            layout: Some(l),
            window_id: None,
            focused: focused == Some(path),
            children: Seq::new(
                ch.len(),
                |i: int|
                    if 0 <= i < ch.len() {
                        layout_view(ch[i], path.push(i as usize), focused)
                    } else {
                        LayoutTreeView { layout: None, window_id: None, focused: false, children: Seq::empty() }
                    },
            ),
        },
    }
}

pub open spec fn layout_tree_spec(s: TreeState) -> Option<LayoutTreeView> {
    match s.root {
        None => None,
        Some(t) => Some(
            layout_view(
                t,
                Seq::empty(),
                if node_at(t, s.focus) is Some {
                    Some(s.focus)
                } else {
                    None
                },
            ),
        ),
    }
}

/// Whether two paths are equal.
fn same_path(a: &Vec<usize>, b: &Vec<usize>) -> (r: bool)
    ensures
        r == (a@ == b@),
{
    if a.len() != b.len() {
        return false;
    }
    let mut i: usize = 0;
    while i < a.len()
        invariant
            i <= a@.len() == b@.len(),
            forall|k: int| 0 <= k < i ==> a@[k] == b@[k],
        decreases a@.len() - i,
    {
        if a[i] != b[i] {
            return false;
        }
        i = i + 1;
    }
    assert(a@ =~= b@);
    true
}

#[verifier::loop_isolation(false)]
fn build_layout_tree_node(n: &NodeData, path: &mut Vec<usize>, focused: &Option<Vec<usize>>) -> (r: LayoutTreeNode)
    ensures
        final(path)@ == old(path)@,
        r@ == layout_view(
            n@,
            old(path)@,
            match focused {
                Some(f) => Some(f@),
                None => None,
            },
        ),
    decreases n,
{
    broadcast use group_view_lemmas;
    broadcast use lemma_layout_node_view;

    let ghost fv = match focused {
        Some(f) => Some(f@),
        None => None,
    };
    let is_focused = match focused {
        Some(f) => same_path(f, path),
        None => false,
    };
    match n {
        NodeData::Leaf(id) => {
            let r = LayoutTreeNode { layout: None, window_id: Some(*id), focused: is_focused, children: Vec::new() };
            assert(r@.children =~= Seq::<LayoutTreeView>::empty());
            r
        },
        NodeData::Container(c) => {
            let ghost ch = kids_view(c.children@);
            let mut children: Vec<LayoutTreeNode> = Vec::new();
            let mut i: usize = 0;
            while i < c.children.len()
                invariant
                    *n == NodeData::Container(*c),
                    i <= c.children@.len(),
                    ch == kids_view(c.children@),
                    path@ == old(path)@,
                    children@.len() == i,
                    forall|k: int|
                        0 <= k < i ==> #[trigger] children@[k]@ == layout_view(ch[k], old(path)@.push(k as usize), fv),
                decreases c.children@.len() - i,
            {
                path.push(i);
                let child = &c.children[i];
                proof {
                    vstd::std_specs::vec::axiom_vec_index_decreases(c.children, i as int);
                }
                let x = build_layout_tree_node(child, path, focused);
                path.pop();
                proof {
                    assert(path@ =~= old(path)@);
                }
                children.push(x);
                i = i + 1;
            }
            let r = LayoutTreeNode { layout: Some(c.layout), window_id: None, focused: is_focused, children };
            proof {
                let lv = layout_view(n@, old(path)@, fv);
                assert(r@.children =~= lv.children);
            }
            r
        },
    }
}

impl ContainerTree {
    /// The tree as reported to clients.
    pub fn layout_tree(&self) -> (r: Option<LayoutTreeNode>)
        ensures
            match r {
                Some(n) => layout_tree_spec(self@) == Some(n@),
                None => layout_tree_spec(self@) is None,
            },
    {
        let len = self.focus_path.len();
        assert(self.focus_path@.subrange(0, len as int) =~= self.focus_path@);
        let focused = if self.node_at_path(&self.focus_path, len).is_some() {
            let f = self.focus_path.clone();
            assert(f@ == self.focus_path@);
            Some(f)
        } else {
            None
        };
        match &self.root {
            None => None,
            Some(n) => {
                let mut path: Vec<usize> = Vec::new();
                Some(build_layout_tree_node(n, &mut path, &focused))
            },
        }
    }
}

// ============================================================================
// Leaf visibility and tab bars
// ============================================================================
/// A leaf's path and whether it is shown.
#[derive(Debug, Clone)]
pub struct LeafVisibility {
    pub path: Vec<usize>,
    pub visible: bool,
}

pub open spec fn visibility_view(v: Seq<LeafVisibility>) -> Seq<(Seq<usize>, bool)> {
    v.map_values(|x: LeafVisibility| (x.path@, x.visible))
}

/// A tab bar to draw: the path of its container, the container's layout and focused index,
/// and the number of tabs.
#[derive(Debug, Clone)]
pub struct TabBarGroup {
    pub path: Vec<usize>,
    pub layout: Layout,
    pub focused_idx: usize,
    pub tab_count: usize,
}

pub open spec fn groups_view(v: Seq<TabBarGroup>) -> Seq<TabBarGroupView> {
    v.map_values(
        |x: TabBarGroup|
            TabBarGroupView { path: x.path@, layout: x.layout, focused_idx: x.focused_idx, tab_count: x.tab_count as nat },
    )
}

#[verifier::loop_isolation(false)]
fn collect_visibility(n: &NodeData, path: &mut Vec<usize>, visible: bool, out: &mut Vec<LeafVisibility>)
    ensures
        final(path)@ == old(path)@,
        visibility_view(final(out)@) == visibility_view(old(out)@) + leaf_visibility(n@, old(path)@, visible),
    decreases n,
{
    broadcast use group_view_lemmas;

    match n {
        NodeData::Leaf(_) => {
            let ghost before = out@;
            let p = path.clone();
            assert(p@ == path@);
            out.push(LeafVisibility { path: p, visible });
            assert(visibility_view(out@) =~= visibility_view(before) + seq![(old(path)@, visible)]);
        },
        NodeData::Container(c) => {
            let ghost ch = kids_view(c.children@);
            let len = c.children.len();
            let focused = if c.focused_idx < len {
                c.focused_idx
            } else if len == 0 {
                0
            } else {
                len - 1
            };
            let stacked = match c.layout {
                Layout::Tabbed | Layout::Stacked => true,
                _ => false,
            };
            let mut i: usize = 0;
            assert(visibility_view(out@) =~= visibility_view(old(out)@) + visibility_upto(
                ch,
                0,
                old(path)@,
                visible,
                c.layout,
                c.focused_idx,
            ));
            while i < len
                invariant
                    *n == NodeData::Container(*c),
                    i <= len == c.children@.len(),
                    ch == kids_view(c.children@),
                    path@ == old(path)@,
                    visibility_view(out@) == visibility_view(old(out)@) + visibility_upto(
                        ch,
                        i as int,
                        old(path)@,
                        visible,
                        c.layout,
                        c.focused_idx,
                    ),
                decreases len - i,
            {
                let ghost before = out@;
                let shown = if stacked {
                    i == focused
                } else {
                    true
                };
                assert(shown == child_visible(c.layout, c.focused_idx, ch.len(), i as int));
                path.push(i);
                let child = &c.children[i];
                proof {
                    vstd::std_specs::vec::axiom_vec_index_decreases(c.children, i as int);
                }
                collect_visibility(child, path, visible && shown, out);
                path.pop();
                proof {
                    assert(path@ =~= old(path)@);
                    assert(visibility_view(out@) =~= visibility_view(old(out)@) + visibility_upto(
                        ch,
                        i + 1,
                        old(path)@,
                        visible,
                        c.layout,
                        c.focused_idx,
                    ));
                }
                i = i + 1;
            }
        },
    }
}

#[verifier::loop_isolation(false)]
fn collect_tab_bar_groups(n: &NodeData, path: &mut Vec<usize>, visible: bool, out: &mut Vec<TabBarGroup>)
    ensures
        final(path)@ == old(path)@,
        groups_view(final(out)@) == groups_view(old(out)@) + tab_bar_groups(n@, old(path)@, visible),
    decreases n,
{
    broadcast use group_view_lemmas;

    match n {
        NodeData::Leaf(_) => {
            assert(groups_view(old(out)@) + Seq::<TabBarGroupView>::empty() =~= groups_view(old(out)@));
        },
        NodeData::Container(c) => {
            let ghost ch = kids_view(c.children@);
            let len = c.children.len();
            let stacked = match c.layout {
                Layout::Tabbed | Layout::Stacked => true,
                _ => false,
            };
            let ghost own = if visible && (c.layout == Layout::Tabbed || c.layout == Layout::Stacked) && ch.len()
                > 0 {
                seq![TabBarGroupView { path: old(path)@, layout: c.layout, focused_idx: c.focused_idx, tab_count: ch.len() }]
            } else {
                Seq::empty()
            };
            if visible && stacked && len > 0 {
                let p = path.clone();
                assert(p@ == path@);
                out.push(TabBarGroup { path: p, layout: c.layout, focused_idx: c.focused_idx, tab_count: len });
            }
            assert(groups_view(out@) =~= groups_view(old(out)@) + own);
            let mut i: usize = 0;
            assert(groups_view(out@) =~= groups_view(old(out)@) + own + tab_groups_upto(
                ch,
                0,
                old(path)@,
                visible,
                c.layout,
                c.focused_idx,
            ));
            while i < len
                invariant
                    *n == NodeData::Container(*c),
                    i <= len == c.children@.len(),
                    ch == kids_view(c.children@),
                    path@ == old(path)@,
                    groups_view(out@) == groups_view(old(out)@) + own + tab_groups_upto(
                        ch,
                        i as int,
                        old(path)@,
                        visible,
                        c.layout,
                        c.focused_idx,
                    ),
                decreases len - i,
            {
                let shown = if stacked {
                    i == c.focused_idx
                } else {
                    true
                };
                path.push(i);
                let child = &c.children[i];
                proof {
                    vstd::std_specs::vec::axiom_vec_index_decreases(c.children, i as int);
                }
                collect_tab_bar_groups(child, path, visible && shown, out);
                path.pop();
                proof {
                    assert(path@ =~= old(path)@);
                    assert(groups_view(out@) =~= groups_view(old(out)@) + own + tab_groups_upto(
                        ch,
                        i + 1,
                        old(path)@,
                        visible,
                        c.layout,
                        c.focused_idx,
                    ));
                }
                i = i + 1;
            }
            assert(groups_view(old(out)@) + own + tab_groups_upto(ch, len as int, old(path)@, visible, c.layout, c.focused_idx)
                =~= groups_view(old(out)@) + tab_bar_groups(n@, old(path)@, visible));
        },
    }
}

impl ContainerTree {
    /// Every leaf, depth-first, with whether it is shown: below a tabbed or stacked
    /// container only its focused child (clamped to the last) is shown.
    pub fn leaf_visibility(&self) -> (r: Vec<LeafVisibility>)
        ensures
            visibility_view(r@) == match self@.root {
                Some(t) => leaf_visibility(t, Seq::empty(), true),
                None => Seq::empty(),
            },
    {
        let mut out: Vec<LeafVisibility> = Vec::new();
        match &self.root {
            Some(n) => {
                let mut path: Vec<usize> = Vec::new();
                collect_visibility(n, &mut path, true, &mut out);
                assert(visibility_view(Seq::<LeafVisibility>::empty()) + leaf_visibility(n@, Seq::empty(), true)
                    =~= leaf_visibility(n@, Seq::empty(), true));
            },
            None => {
                assert(visibility_view(out@) =~= Seq::<(Seq<usize>, bool)>::empty());
            },
        }
        out
    }

    /// The tab bars to draw: shown tabbed and stacked containers with children, depth-first.
    pub fn tab_bar_groups(&self) -> (r: Vec<TabBarGroup>)
        ensures
            groups_view(r@) == match self@.root {
                Some(t) => tab_bar_groups(t, Seq::empty(), true),
                None => Seq::empty(),
            },
    {
        let mut out: Vec<TabBarGroup> = Vec::new();
        match &self.root {
            Some(n) => {
                let mut path: Vec<usize> = Vec::new();
                collect_tab_bar_groups(n, &mut path, true, &mut out);
                assert(groups_view(Seq::<TabBarGroup>::empty()) + tab_bar_groups(n@, Seq::empty(), true)
                    =~= tab_bar_groups(n@, Seq::empty(), true));
            },
            None => {
                assert(groups_view(out@) =~= Seq::<TabBarGroupView>::empty());
            },
        }
        out
    }

    /// Whether some window under the node at `path` is among `urgent` (a tab is marked
    /// urgent when any window inside it is).
    pub fn subtree_has_urgent(&self, path: &[usize], urgent: &[u64]) -> (r: bool)
        ensures
            r == exists|k: int|
                0 <= k < windows_under(self@.root, path@).len() && urgent@.contains(
                    #[trigger] windows_under(self@.root, path@)[k],
                ),
    {
        broadcast use group_view_lemmas;

        let p = vstd::slice::slice_to_vec(path);
        let len = p.len();
        assert(p@.subrange(0, len as int) =~= path@);
        let start = match self.node_at_path(&p, len) {
            Some(n) => n,
            None => return false,
        };
        let mut ws: Vec<u64> = Vec::new();
        collect_windows(start, &mut ws);
        assert(Seq::<u64>::empty() + leaves(start@) =~= leaves(start@));
        let ghost w = ws@;
        let mut i: usize = 0;
        while i < ws.len()
            invariant
                i <= ws@.len(),
                ws@ == w,
                w == windows_under(self@.root, path@),
                forall|k: int| 0 <= k < i ==> !urgent@.contains(#[trigger] w[k]),
            decreases ws@.len() - i,
        {
            let id = ws[i];
            let mut j: usize = 0;
            while j < urgent.len()
                invariant
                    j <= urgent@.len(),
                    i < w.len(),
                    id == w[i as int],
                    w == windows_under(self@.root, path@),
                    forall|m: int| 0 <= m < j ==> urgent@[m] != id,
                decreases urgent@.len() - j,
            {
                if urgent[j] == id {
                    assert(urgent@[j as int] == w[i as int]);
                    assert(urgent@.contains(w[i as int]));
                    assert(urgent@.contains(windows_under(self@.root, path@)[i as int]));
                    return true;
                }
                j = j + 1;
            }
            assert(!urgent@.contains(w[i as int]));
            i = i + 1;
        }
        assert(forall|k: int|
            0 <= k < windows_under(self@.root, path@).len() ==> !urgent@.contains(
                #[trigger] windows_under(self@.root, path@)[k],
            ));
        false
    }

    /// The window shown for the node at `path`: the leaf reached through focused children
    /// (clamped to the last child), if any.
    pub fn focused_window_under(&self, path: &[usize]) -> (r: Option<u64>)
        ensures
            r == match root_node_at(self@.root, path@) {
                Some(n) => match node_at(n, first_leaf(n)) {
                    Some(Tree::Leaf(id)) => Some(id),
                    _ => None,
                },
                None => None,
            },
    {
        broadcast use group_view_lemmas;

        let mut p = vstd::slice::slice_to_vec(path);
        let len = p.len();
        assert(p@.subrange(0, len as int) =~= path@);
        let start = match self.node_at_path(&p, len) {
            Some(n) => n,
            None => return None,
        };
        let ghost n = start@;
        let mut rel: Vec<usize> = Vec::new();
        descend_first(start, &mut rel);
        assert(Seq::<usize>::empty() + first_leaf(n) =~= first_leaf(n));
        let rlen = rel.len();
        assert(rel@.subrange(0, rlen as int) =~= rel@);
        match node_ref_at(start, &rel, 0, rlen) {
            Some(NodeData::Leaf(id)) => Some(*id),
            _ => None,
        }
    }
}

} // verus!
